//! Core byte-pair-encoding machinery: token and count types, pair
//! statistics over token sequences, the deterministic max-entry selection
//! used as the training tie-break, and the pair-merge rewrite step.
//!
//! Statistics and merge tables are association vectors: sequences of
//! key/value entries with unique keys, where entry order is insertion
//! order. Insertion order is significant throughout: the training
//! tie-break and the merge priority rule both depend on it.

use vstd::prelude::*;

verus! {

/// Token type to support up to 2^31 distinct tokens. It is signed in case a
/// tokenizer needs to use negative values for special tokens.
pub type Token = i32;

/// Count type to support up to 2^64 occurrences of any token pair.
pub type Count = u64;

/// A pair of adjacent tokens, the key of statistics and merge tables.
pub type Pair = (i32, i32);

/// Every failure the engine can report. Each operation's contract says
/// exactly which variant it returns and on which inputs.
#[derive(Clone, Copy, Debug, PartialEq, Eq, Structural)]
pub enum TokenizerError {
    /// Vocabulary size below 256, or a split pattern the engine rejects.
    ConfigurationError,
    /// A malformed persisted model: bad version marker, header, or field.
    FormatError,
    /// Decoding met an id that is neither in the vocabulary nor special.
    UnknownTokenError,
    /// A registered special token occurred in input that forbids them.
    PolicyViolationError,
    /// A foreign rank table that does not decompose consistently.
    ConsistencyError,
    /// Training ran out of mergeable pairs before reaching the target size.
    TrainingExhaustionError,
}

// ---------------------------------------------------------------------------
// Association sequences: ordered key/value entries.
// ---------------------------------------------------------------------------

/// Index of the first entry with key `k`, or -1 if there is none.
pub open spec fn key_index<K, V>(m: Seq<(K, V)>, k: K) -> int
    decreases m.len(),
{
    if m.len() == 0 {
        -1
    } else if m[0].0 == k {
        0
    } else {
        let r = key_index(m.drop_first(), k);
        if r < 0 {
            -1
        } else {
            r + 1
        }
    }
}

/// Whether some entry has key `k`.
pub open spec fn has_key<K, V>(m: Seq<(K, V)>, k: K) -> bool {
    key_index(m, k) >= 0
}

/// The value of the first entry with key `k` (meaningful when `has_key`).
pub open spec fn value_of<K, V>(m: Seq<(K, V)>, k: K) -> V {
    m[key_index(m, k)].1
}

/// No two entries share a key.
pub open spec fn keys_unique<K, V>(m: Seq<(K, V)>) -> bool {
    forall|i: int, j: int| 0 <= i < j < m.len() ==> m[i].0 != m[j].0
}

/// Entry lookup by pair key: index of the first entry whose key is `p`.
fn find_pair_index<V: Copy>(m: &Vec<(Pair, V)>, p: Pair) -> (r: Option<usize>)
    ensures
        match r {
            Some(i) => key_index(m@, p) == i && i < m@.len() && m@[i as int].0 == p,
            None => key_index(m@, p) == -1,
        },
{
    proof {
        lemma_key_index(m@, p);
    }
    let n = m.len();
    let mut i: usize = 0;
    while i < n
        invariant
            n == m@.len(),
            i <= n,
            forall|j: int| 0 <= j < i ==> m@[j].0 != p,
        decreases n - i,
    {
        let e = m[i];
        if e.0.0 == p.0 && e.0.1 == p.1 {
            proof {
                lemma_key_index(m@, p);
                assert(m@[i as int].0 == p);
                let ki = key_index(m@, p);
                assert(ki != -1);
                if ki < i {
                    assert(m@[ki].0 != p);
                }
                if ki > i {
                    assert(m@[i as int].0 != p);
                }
            }
            return Some(i);
        }
        i += 1;
    }
    None
}

/// `key_index` finds the first entry with the given key, and -1 means the
/// key is absent.
pub proof fn lemma_key_index<K, V>(m: Seq<(K, V)>, k: K)
    ensures
        -1 <= key_index(m, k) < m.len(),
        key_index(m, k) >= 0 ==> m[key_index(m, k)].0 == k,
        forall|j: int| 0 <= j < key_index(m, k) ==> m[j].0 != k,
        key_index(m, k) == -1 ==> forall|j: int| 0 <= j < m.len() ==> m[j].0 != k,
    decreases m.len(),
{
    if m.len() == 0 {
    } else if m[0].0 == k {
    } else {
        lemma_key_index(m.drop_first(), k);
        assert forall|j: int| 0 <= j < m.len() && m[j].0 == k implies j > 0 && m.drop_first()[j
            - 1].0 == k by {
            assert(m.drop_first()[j - 1] == m[j]);
        }
    }
}

// ---------------------------------------------------------------------------
// Pair statistics.
// ---------------------------------------------------------------------------

/// A count bumped by one, staying put at the ceiling of the count type.
pub open spec fn sat_inc(c: Count) -> Count {
    if c < Count::MAX {
        (c + 1) as Count
    } else {
        c
    }
}

/// One pair folded into the statistics: an existing entry's count is bumped
/// in place, an unseen pair is appended, so entry order is first-seen order.
pub open spec fn spec_bump(m: Seq<(Pair, Count)>, p: Pair) -> Seq<(Pair, Count)> {
    let i = key_index(m, p);
    if i >= 0 {
        m.update(i, (p, sat_inc(m[i].1)))
    } else {
        m.push((p, 1))
    }
}

/// All adjacent pairs of `ids` folded into `m`, left to right.
pub open spec fn spec_update_stats(ids: Seq<Token>, m: Seq<(Pair, Count)>) -> Seq<(Pair, Count)>
    decreases ids.len(),
{
    if ids.len() < 2 {
        m
    } else {
        spec_update_stats(ids.drop_first(), spec_bump(m, (ids[0], ids[1])))
    }
}

/// Folds the counts of consecutive pairs of `ids` into an existing running
/// total, inserting unseen keys in first-encountered order.
pub fn update_stats(ids: &Vec<Token>, counts: &mut Vec<(Pair, Count)>)
    ensures
        final(counts)@ == spec_update_stats(ids@, old(counts)@),
{
    let n = ids.len();
    if n < 2 {
        return ;
    }
    proof {
        assert(ids@.skip(0) =~= ids@);
    }
    let mut i: usize = 0;
    while i < n - 1
        invariant
            2 <= n == ids@.len(),
            i <= n - 1,
            spec_update_stats(ids@, old(counts)@) == spec_update_stats(
                ids@.skip(i as int),
                counts@,
            ),
        decreases n - i,
    {
        let ghost pre = counts@;
        let p = (ids[i], ids[i + 1]);
        match find_pair_index(counts, p) {
            Some(j) => {
                let c = counts[j].1;
                counts[j] = (p, if c < Count::MAX {
                    c + 1
                } else {
                    c
                });
            },
            None => {
                counts.push((p, 1));
            },
        }
        proof {
            let rest = ids@.skip(i as int);
            assert(rest[0] == ids@[i as int]);
            assert(rest[1] == ids@[i as int + 1]);
            assert(counts@ == spec_bump(pre, p));
            assert(rest.drop_first() =~= ids@.skip(i as int + 1));
        }
        i += 1;
    }
}

/// The counts of consecutive pairs across `ids`, keys in first-seen order.
pub fn get_stats(ids: &Vec<Token>) -> (counts: Vec<(Pair, Count)>)
    ensures
        counts@ == spec_update_stats(ids@, Seq::<(Pair, Count)>::empty()),
{
    let mut counts: Vec<(Pair, Count)> = Vec::new();
    update_stats(ids, &mut counts);
    counts
}

// ---------------------------------------------------------------------------
// Max-entry selection with the first-inserted tie-break.
// ---------------------------------------------------------------------------

/// Index of the entry holding the greatest count among the first `n`
/// entries; on a tie, the earliest such entry. A later entry displaces the
/// running best only with a strictly greater count.
pub open spec fn spec_max_index(m: Seq<(Pair, Count)>, n: int) -> int
    decreases n,
{
    if n <= 1 {
        0
    } else {
        let r = spec_max_index(m, n - 1);
        if m[n - 1].1 > m[r].1 {
            n - 1
        } else {
            r
        }
    }
}

/// The entry `get_max_entry` returns: nothing on an empty statistics map,
/// else the first-inserted entry with the strictly greatest count.
pub open spec fn spec_select_max(m: Seq<(Pair, Count)>) -> Option<(Pair, Count)> {
    if m.len() == 0 {
        None
    } else {
        Some(m[spec_max_index(m, m.len() as int)])
    }
}

/// Returns the pair with the highest count, preserving insertion order of
/// the entries: of several tied maxima the first-inserted one is returned.
pub fn get_max_entry(stats: &Vec<(Pair, Count)>) -> (r: Option<(Pair, Count)>)
    ensures
        r == spec_select_max(stats@),
{
    let n = stats.len();
    if n == 0 {
        return None;
    }
    let mut best: usize = 0;
    let mut i: usize = 1;
    while i < n
        invariant
            n == stats@.len(),
            1 <= i <= n,
            best < i,
            best == spec_max_index(stats@, i as int),
        decreases n - i,
    {
        if stats[i].1 > stats[best].1 {
            best = i;
        }
        i += 1;
    }
    Some(stats[best])
}

/// Tie-break stability: the selected entry carries the maximum count, and
/// every earlier-inserted entry has a strictly smaller count — so of several
/// tied maxima the first-inserted one is selected, whatever the counts.
pub proof fn lemma_select_max_tie_break(m: Seq<(Pair, Count)>)
    requires
        m.len() > 0,
    ensures
        ({
            let i = spec_max_index(m, m.len() as int);
            &&& 0 <= i < m.len()
            &&& spec_select_max(m) == Some(m[i])
            &&& forall|j: int| 0 <= j < m.len() ==> m[j].1 <= m[i].1
            &&& forall|j: int| 0 <= j < i ==> m[j].1 < m[i].1
        }),
{
    lemma_max_index_prefix(m, m.len() as int);
}

/// `spec_max_index(m, n)` points at the first maximum of the first `n`
/// entries.
proof fn lemma_max_index_prefix(m: Seq<(Pair, Count)>, n: int)
    requires
        1 <= n <= m.len(),
    ensures
        ({
            let i = spec_max_index(m, n);
            &&& 0 <= i < n
            &&& forall|j: int| 0 <= j < n ==> m[j].1 <= m[i].1
            &&& forall|j: int| 0 <= j < i ==> m[j].1 < m[i].1
        }),
    decreases n,
{
    if n > 1 {
        lemma_max_index_prefix(m, n - 1);
    }
}

// ---------------------------------------------------------------------------
// The pair-merge rewrite step.
// ---------------------------------------------------------------------------

/// `ids` with every non-overlapping occurrence of `pair` replaced by
/// `new_id`, scanning left to right: a merge at a position consumes both
/// tokens, and scanning resumes after them.
pub open spec fn spec_merge(ids: Seq<Token>, pair: Pair, new_id: Token) -> Seq<Token>
    decreases ids.len(),
{
    if ids.len() >= 2 && ids[0] == pair.0 && ids[1] == pair.1 {
        seq![new_id] + spec_merge(ids.skip(2), pair, new_id)
    } else if ids.len() >= 1 {
        seq![ids[0]] + spec_merge(ids.skip(1), pair, new_id)
    } else {
        Seq::empty()
    }
}

/// Merges consecutive occurrences of `pair` in `ids`, replacing each with
/// `new_id`, left to right and without re-matching across a replacement.
pub fn merge(ids: &Vec<Token>, pair: Pair, new_id: Token) -> (new_ids: Vec<Token>)
    ensures
        new_ids@ == spec_merge(ids@, pair, new_id),
{
    let n = ids.len();
    let mut new_ids: Vec<Token> = Vec::new();
    proof {
        assert(ids@.skip(0) =~= ids@);
    }
    let mut i: usize = 0;
    while i < n
        invariant
            n == ids@.len(),
            i <= n,
            spec_merge(ids@, pair, new_id) == new_ids@ + spec_merge(
                ids@.skip(i as int),
                pair,
                new_id,
            ),
        decreases n - i,
    {
        let ghost rest = ids@.skip(i as int);
        if i < n - 1 && ids[i] == pair.0 && ids[i + 1] == pair.1 {
            new_ids.push(new_id);
            proof {
                assert(rest[0] == ids@[i as int] && rest[1] == ids@[i as int + 1]);
                assert(rest.skip(2) =~= ids@.skip(i as int + 2));
            }
            i += 2;
        } else {
            new_ids.push(ids[i]);
            proof {
                assert(rest[0] == ids@[i as int]);
                if rest.len() >= 2 && i < n - 1 {
                    assert(rest[1] == ids@[i as int + 1]);
                }
                assert(rest.skip(1) =~= ids@.skip(i as int + 1));
            }
            i += 1;
        }
    }
    proof {
        assert(ids@.skip(n as int) =~= Seq::<Token>::empty());
    }
    new_ids
}

// ---------------------------------------------------------------------------
// Encoding: repeatedly apply the applicable merge with the smallest token id.
// ---------------------------------------------------------------------------

/// Whether `pair` occurs at two adjacent positions of `ids`.
pub open spec fn spec_has_pair(ids: Seq<Token>, pair: Pair) -> bool {
    exists|i: int| 0 <= i && i + 1 < ids.len() && #[trigger] ids[i] == pair.0 && ids[i + 1]
        == pair.1
}

/// Among the adjacent pairs of `ids` starting before position `n` that are
/// merge keys, the pair with the numerically smallest merge token, with its
/// token. A later window displaces the running best only with a strictly
/// smaller token.
pub open spec fn lowest_upto(m: Seq<(Pair, Token)>, ids: Seq<Token>, n: int) -> Option<
    (Pair, Token),
>
    decreases n,
{
    if n <= 0 {
        None
    } else {
        let prev = lowest_upto(m, ids, n - 1);
        let p = (ids[n - 1], ids[n]);
        if has_key(m, p) && (prev is None || value_of(m, p) < prev.unwrap().1) {
            Some((p, value_of(m, p)))
        } else {
            prev
        }
    }
}

/// The merge that encoding applies next to `ids`, if any: the applicable
/// merge whose token id is smallest, that is the earliest-learned one.
pub open spec fn spec_lowest_merge(m: Seq<(Pair, Token)>, ids: Seq<Token>) -> Option<
    (Pair, Token),
> {
    lowest_upto(m, ids, ids.len() - 1)
}

/// What `lowest_upto` selects: a pair that occurs, is a merge key, carries
/// its merge token, and has the smallest merge token among the windows
/// considered; or nothing, when no considered window is a merge key.
proof fn lemma_lowest_upto(m: Seq<(Pair, Token)>, ids: Seq<Token>, n: int)
    requires
        n < ids.len(),
    ensures
        match lowest_upto(m, ids, n) {
            Some(pt) => has_key(m, pt.0) && value_of(m, pt.0) == pt.1 && spec_has_pair(ids, pt.0)
                && (forall|i: int|
                0 <= i < n && #[trigger] has_key(m, (ids[i], ids[i + 1])) ==> pt.1 <= value_of(
                    m,
                    (ids[i], ids[i + 1]),
                )),
            None => forall|i: int| 0 <= i < n ==> !(#[trigger] has_key(m, (ids[i], ids[i + 1]))),
        },
    decreases n,
{
    if n > 0 {
        lemma_lowest_upto(m, ids, n - 1);
        let p = (ids[n - 1], ids[n]);
        if has_key(m, p) {
            assert(spec_has_pair(ids, p)) by {
                assert(ids[n - 1] == p.0 && ids[n] == p.1);
            }
        }
    }
}

/// Merge-order monotonicity: the merge that encoding applies is always the
/// applicable merge with the smallest token id, so a higher-id merge is
/// never applied while a lower-id merge still applies; and when no merge is
/// selected, no adjacent pair is a merge key at all.
pub proof fn lemma_merge_order_monotonic(m: Seq<(Pair, Token)>, ids: Seq<Token>)
    ensures
        match spec_lowest_merge(m, ids) {
            Some(pt) => has_key(m, pt.0) && value_of(m, pt.0) == pt.1 && spec_has_pair(ids, pt.0)
                && (forall|i: int|
                0 <= i && i + 1 < ids.len() && #[trigger] has_key(m, (ids[i], ids[i + 1]))
                    ==> pt.1 <= value_of(m, (ids[i], ids[i + 1]))),
            None => forall|i: int|
                0 <= i && i + 1 < ids.len() ==> !(#[trigger] has_key(m, (ids[i], ids[i + 1]))),
        },
{
    lemma_lowest_upto(m, ids, ids.len() as int - 1);
}

/// Merging never lengthens a sequence, and an occurring pair strictly
/// shortens it.
pub proof fn lemma_merge_shrinks(ids: Seq<Token>, pair: Pair, new_id: Token)
    ensures
        spec_merge(ids, pair, new_id).len() <= ids.len(),
        spec_has_pair(ids, pair) ==> spec_merge(ids, pair, new_id).len() < ids.len(),
    decreases ids.len(),
{
    if ids.len() >= 2 && ids[0] == pair.0 && ids[1] == pair.1 {
        lemma_merge_shrinks(ids.skip(2), pair, new_id);
    } else if ids.len() >= 1 {
        lemma_merge_shrinks(ids.skip(1), pair, new_id);
        if spec_has_pair(ids, pair) {
            let i = choose|i: int|
                0 <= i && i + 1 < ids.len() && #[trigger] ids[i] == pair.0 && ids[i + 1]
                    == pair.1;
            assert(i >= 1);
            assert(ids.skip(1)[i - 1] == ids[i] && ids.skip(1)[i] == ids[i + 1]);
            assert(spec_has_pair(ids.skip(1), pair));
        }
    }
}

/// The fully encoded form of `ids` under the merge table `m`: while some
/// adjacent pair is a merge key, apply the applicable merge with the
/// smallest token id and repeat.
pub open spec fn spec_encode(m: Seq<(Pair, Token)>, ids: Seq<Token>) -> Seq<Token>
    decreases ids.len(),
{
    match spec_lowest_merge(m, ids) {
        None => ids,
        Some(pt) => {
            let merged = spec_merge(ids, pt.0, pt.1);
            if merged.len() < ids.len() {
                spec_encode(m, merged)
            } else {
                ids
            }
        },
    }
}

/// Applies the merge table to a token sequence: repeatedly selects, among
/// the adjacent pairs present in `merges`, the one with the smallest merge
/// token — the earliest-learned merge — and rewrites, until none applies.
pub fn encode_ids(merges: &Vec<(Pair, Token)>, start: Vec<Token>) -> (r: Vec<Token>)
    ensures
        r@ == spec_encode(merges@, start@),
{
    let mut ids = start;
    let ghost goal = spec_encode(merges@, ids@);
    loop
        invariant
            spec_encode(merges@, ids@) == goal,
        ensures
            spec_encode(merges@, ids@) == goal,
            spec_lowest_merge(merges@, ids@) is None,
        decreases ids@.len(),
    {
        let n = ids.len();
        if n < 2 {
            proof {
                assert(spec_lowest_merge(merges@, ids@) is None);
            }
            break ;
        }
        let mut best: Option<(Pair, Token)> = None;
        let mut k: usize = 1;
        while k < n
            invariant
                n == ids@.len(),
                n >= 2,
                1 <= k <= n,
                best == lowest_upto(merges@, ids@, k as int - 1),
            decreases n - k,
        {
            let p = (ids[k - 1], ids[k]);
            match find_pair_index(merges, p) {
                Some(j) => {
                    let t = merges[j].1;
                    proof {
                        assert(value_of(merges@, p) == t);
                    }
                    best = match best {
                        None => Some((p, t)),
                        Some(qu) => {
                            if t < qu.1 {
                                Some((p, t))
                            } else {
                                Some(qu)
                            }
                        },
                    };
                },
                None => {
                },
            }
            k += 1;
        }
        match best {
            None => {
                break ;
            },
            Some(pt) => {
                proof {
                    lemma_merge_order_monotonic(merges@, ids@);
                    lemma_merge_shrinks(ids@, pt.0, pt.1);
                }
                let merged = merge(&ids, pt.0, pt.1);
                ids = merged;
            },
        }
    }
    ids
}

// ---------------------------------------------------------------------------
// Merge-table well-formedness and the derived vocabulary.
// ---------------------------------------------------------------------------

/// What holds of the merge entry at position `i`: its token is at least 256,
/// later than every earlier merge token, and each parent is either a raw
/// byte token or the token of an earlier merge.
pub open spec fn merge_entry_wf(m: Seq<(Pair, Token)>, i: int) -> bool {
    &&& 256 <= m[i].1
    &&& 0 <= m[i].0.0 < m[i].1
    &&& 0 <= m[i].0.1 < m[i].1
    &&& (m[i].0.0 < 256 || exists|j: int| 0 <= j < i && #[trigger] m[j].1 == m[i].0.0)
    &&& (m[i].0.1 < 256 || exists|j: int| 0 <= j < i && #[trigger] m[j].1 == m[i].0.1)
    &&& forall|j: int| 0 <= j < i ==> #[trigger] m[j].1 < m[i].1
}

/// A well-formed merge table: entry order is priority order, merge tokens
/// increase strictly along it, and every parent token is resolvable.
pub open spec fn merges_wf(m: Seq<(Pair, Token)>) -> bool {
    forall|i: int| 0 <= i < m.len() ==> #[trigger] merge_entry_wf(m, i)
}

/// The 256 raw byte entries every vocabulary starts from.
pub open spec fn spec_base_vocab() -> Seq<(Token, Seq<u8>)> {
    Seq::new(256, |i: int| (i as Token, seq![i as u8]))
}

/// The vocabulary after replaying the first `n` merges: each merge appends
/// an entry mapping its token to the concatenation of its parents' bytes.
pub open spec fn spec_vocab_after(m: Seq<(Pair, Token)>, n: int) -> Seq<(Token, Seq<u8>)>
    decreases n,
{
    if n <= 0 {
        spec_base_vocab()
    } else {
        let v = spec_vocab_after(m, n - 1);
        v.push((m[n - 1].1, value_of(v, m[n - 1].0.0) + value_of(v, m[n - 1].0.1)))
    }
}

/// Special-token entries as vocabulary entries: each id maps to the UTF-8
/// bytes of its token string.
pub open spec fn spec_special_vocab(spv: Seq<(Seq<char>, Token)>) -> Seq<(Token, Seq<u8>)> {
    spv.map_values(|e: (Seq<char>, Token)| (e.1, vstd::utf8::encode_utf8(e.0)))
}

/// The vocabulary derived from special tokens and merges: raw bytes, then
/// one entry per merge in order, then the special tokens.
pub open spec fn spec_build_vocab(spv: Seq<(Seq<char>, Token)>, m: Seq<(Pair, Token)>) -> Seq<
    (Token, Seq<u8>),
> {
    spec_vocab_after(m, m.len() as int) + spec_special_vocab(spv)
}

/// The view of an executable vocabulary.
pub open spec fn vocab_view(v: Seq<(Token, Vec<u8>)>) -> Seq<(Token, Seq<u8>)> {
    v.map_values(|e: (Token, Vec<u8>)| (e.0, e.1@))
}

/// In a table with unique keys, looking up the key of entry `i` finds
/// entry `i`.
pub proof fn lemma_key_index_unique<K, V>(m: Seq<(K, V)>, i: int)
    requires
        keys_unique(m),
        0 <= i < m.len(),
    ensures
        key_index(m, m[i].0) == i,
{
    lemma_key_index(m, m[i].0);
    let ki = key_index(m, m[i].0);
    if ki != i {
        assert(m[ki].0 == m[i].0);
    }
}

/// Appending entries does not change the lookup of a key that is already
/// present, and lookups of absent keys continue into the appended part.
pub proof fn lemma_key_index_append<K, V>(a: Seq<(K, V)>, b: Seq<(K, V)>, k: K)
    ensures
        has_key(a, k) ==> key_index(a + b, k) == key_index(a, k),
        !has_key(a, k) ==> key_index(a + b, k) == (if has_key(b, k) {
            a.len() + key_index(b, k)
        } else {
            -1
        }),
    decreases a.len(),
{
    lemma_key_index(a, k);
    lemma_key_index(b, k);
    lemma_key_index(a + b, k);
    if a.len() == 0 {
        assert(a + b =~= b);
    } else if a[0].0 == k {
        assert((a + b)[0].0 == k);
    } else {
        lemma_key_index_append(a.drop_first(), b, k);
        assert(a.drop_first() + b =~= (a + b).drop_first());
        assert((a + b)[0].0 == a[0].0);
    }
}

/// Mapping an executable vocabulary to its view leaves every key lookup
/// unchanged.
pub proof fn lemma_view_key_index(v: Seq<(Token, Vec<u8>)>, t: Token)
    ensures
        key_index(vocab_view(v), t) == key_index(v, t),
    decreases v.len(),
{
    if v.len() > 0 {
        lemma_view_key_index(v.drop_first(), t);
        assert(vocab_view(v.drop_first()) =~= vocab_view(v).drop_first());
    }
}

/// Structure of the replayed vocabulary: its length, its unique keys, the
/// raw byte entries in place, and one entry per merge at its position.
pub proof fn lemma_vocab_after_structure(m: Seq<(Pair, Token)>, n: int)
    requires
        merges_wf(m),
        0 <= n <= m.len(),
    ensures
        ({
            let v = spec_vocab_after(m, n);
            &&& v.len() == 256 + n
            &&& keys_unique(v)
            &&& forall|t: int| 0 <= t < 256 ==> #[trigger] v[t] == (t as Token, seq![t as u8])
            &&& forall|j: int| 0 <= j < n ==> (#[trigger] v[256 + j]).0 == m[j].1
            &&& forall|i: int| 0 <= i < v.len() ==> 0 <= (#[trigger] v[i]).0 < (if n == 0 {
                256
            } else {
                m[n - 1].1 + 1
            })
        }),
    decreases n,
{
    let v = spec_vocab_after(m, n);
    if n == 0 {
        assert forall|i: int, j: int| 0 <= i < j < v.len() implies v[i].0 != v[j].0 by {
            assert(v[i].0 == i as Token && v[j].0 == j as Token);
        }
        assert forall|i: int| 0 <= i < v.len() implies 0 <= (#[trigger] v[i]).0 < 256 by {
            assert(v[i].0 == i as Token);
        }
    } else {
        lemma_vocab_after_structure(m, n - 1);
        let w = spec_vocab_after(m, n - 1);
        assert(merge_entry_wf(m, n - 1));
        assert forall|i: int, j: int| 0 <= i < j < v.len() implies v[i].0 != v[j].0 by {
            if j < v.len() - 1 {
                assert(w[i].0 != w[j].0);
            } else {
                assert(v[j].0 == m[n - 1].1);
                if n - 1 > 0 {
                    assert(m[n - 2].1 < m[n - 1].1);
                }
                assert(0 <= w[i].0 < (if n - 1 == 0 {
                    256
                } else {
                    m[n - 2].1 + 1
                }));
            }
        }
    }
}

/// The vocabulary entry of a raw byte token, in any replay.
pub proof fn lemma_vocab_byte_entry(m: Seq<(Pair, Token)>, n: int, t: Token)
    requires
        merges_wf(m),
        0 <= n <= m.len(),
        0 <= t < 256,
    ensures
        ({
            let v = spec_vocab_after(m, n);
            &&& has_key(v, t)
            &&& key_index(v, t) == t
            &&& value_of(v, t) == seq![t as u8]
        }),
{
    let v = spec_vocab_after(m, n);
    lemma_vocab_after_structure(m, n);
    assert(v[t as int] == (t as Token, seq![t as u8]));
    lemma_key_index_unique(v, t as int);
}

/// The position of the merge token of entry `j`, in any replay that
/// includes it.
pub proof fn lemma_vocab_merge_entry(m: Seq<(Pair, Token)>, n: int, j: int)
    requires
        merges_wf(m),
        0 <= j < n <= m.len(),
    ensures
        ({
            let v = spec_vocab_after(m, n);
            &&& has_key(v, m[j].1)
            &&& key_index(v, m[j].1) == 256 + j
            &&& value_of(v, m[j].1) == v[256 + j].1
        }),
{
    let v = spec_vocab_after(m, n);
    lemma_vocab_after_structure(m, n);
    assert(v[256 + j].0 == m[j].1);
    lemma_key_index_unique(v, 256 + j);
}

/// Replaying more merges only appends entries: the first `256 + k` entries
/// of a longer replay are exactly the shorter replay.
pub proof fn lemma_vocab_prefix(m: Seq<(Pair, Token)>, k: int, n: int)
    requires
        0 <= k <= n,
    ensures
        spec_vocab_after(m, n).take(256 + k) =~= spec_vocab_after(m, k),
        spec_vocab_after(m, n).len() == 256 + n,
    decreases n, k,
{
    if n == 0 {
        assert(spec_vocab_after(m, 0).take(256) =~= spec_vocab_after(m, 0));
    } else if k == n {
        lemma_vocab_prefix(m, 0, n);
        assert(spec_vocab_after(m, n).take(256 + n) =~= spec_vocab_after(m, n));
    } else {
        lemma_vocab_prefix(m, k, n - 1);
    }
}

/// A vocabulary that resolves every raw byte token to its single byte.
pub open spec fn vocab_bytes_ok(v: Seq<(Token, Seq<u8>)>) -> bool {
    forall|t: Token| 0 <= t < 256 ==> #[trigger] has_key(v, t) && value_of(v, t) == seq![t as u8]
}

/// A vocabulary that resolves every merge token of `m` to the concatenation
/// of its parents' bytes.
pub open spec fn vocab_covers(v: Seq<(Token, Seq<u8>)>, m: Seq<(Pair, Token)>) -> bool {
    forall|j: int| 0 <= j < m.len() ==> #[trigger] has_key(v, m[j].1) && value_of(v, m[j].1)
        == value_of(v, m[j].0.0) + value_of(v, m[j].0.1)
}

/// The vocabulary replayed from a well-formed merge table resolves raw
/// bytes to themselves and every merge token to its parents' concatenation.
pub proof fn lemma_vocab_after_covers(m: Seq<(Pair, Token)>, n: int)
    requires
        merges_wf(m),
        0 <= n <= m.len(),
    ensures
        vocab_bytes_ok(spec_vocab_after(m, n)),
        vocab_covers(spec_vocab_after(m, n), m.take(n)),
{
    let v = spec_vocab_after(m, n);
    assert forall|t: Token| 0 <= t < 256 implies #[trigger] has_key(v, t) && value_of(v, t)
        == seq![t as u8] by {
        lemma_vocab_byte_entry(m, n, t);
    }
    assert forall|j: int| 0 <= j < n implies #[trigger] has_key(v, m.take(n)[j].1) && value_of(
        v,
        m.take(n)[j].1,
    ) == value_of(v, m.take(n)[j].0.0) + value_of(v, m.take(n)[j].0.1) by {
        assert(m.take(n)[j] == m[j]);
        lemma_vocab_merge_entry(m, n, j);
        lemma_vocab_entry_parents(m, j, n);
    }
}

/// The vocabulary entry of the merge at position `j` equals the
/// concatenation of its parents' entries, looked up in any replay that
/// includes it.
pub proof fn lemma_vocab_entry_parents(m: Seq<(Pair, Token)>, j: int, n: int)
    requires
        merges_wf(m),
        0 <= j < n <= m.len(),
    ensures
        ({
            let v = spec_vocab_after(m, n);
            &&& has_key(v, m[j].0.0)
            &&& has_key(v, m[j].0.1)
            &&& value_of(v, m[j].1) == value_of(v, m[j].0.0) + value_of(v, m[j].0.1)
        }),
{
    let v = spec_vocab_after(m, n);
    let vj = spec_vocab_after(m, j);
    let vj1 = spec_vocab_after(m, j + 1);
    lemma_vocab_after_structure(m, n);
    lemma_vocab_after_structure(m, j);
    assert(merge_entry_wf(m, j));
    lemma_vocab_prefix(m, j + 1, n);
    // The entry the merge pushed.
    assert(vj1[256 + j] == (m[j].1, value_of(vj, m[j].0.0) + value_of(vj, m[j].0.1)));
    assert(v[256 + j] == vj1[256 + j]) by {
        assert(v.take(256 + j + 1)[256 + j] == v[256 + j]);
    }
    lemma_vocab_merge_entry(m, n, j);
    // Each parent's lookup is the same in the partial and the full replay.
    lemma_parent_lookup_stable(m, m[j].0.0, j, n);
    lemma_parent_lookup_stable(m, m[j].0.1, j, n);
}

/// A parent token resolvable before position `j` has the same vocabulary
/// entry in the replay up to `j` and in any longer replay.
proof fn lemma_parent_lookup_stable(m: Seq<(Pair, Token)>, t: Token, j: int, n: int)
    requires
        merges_wf(m),
        0 <= j <= n <= m.len(),
        0 <= t,
        t < 256 || exists|jj: int| 0 <= jj < j && #[trigger] m[jj].1 == t,
    ensures
        has_key(spec_vocab_after(m, j), t),
        has_key(spec_vocab_after(m, n), t),
        value_of(spec_vocab_after(m, n), t) == value_of(spec_vocab_after(m, j), t),
{
    let v = spec_vocab_after(m, n);
    let vj = spec_vocab_after(m, j);
    lemma_vocab_prefix(m, j, n);
    if t < 256 {
        lemma_vocab_byte_entry(m, n, t);
        lemma_vocab_byte_entry(m, j, t);
    } else {
        let jj = choose|jj: int| 0 <= jj < j && #[trigger] m[jj].1 == t;
        lemma_vocab_merge_entry(m, n, jj);
        lemma_vocab_merge_entry(m, j, jj);
        assert(v.take(256 + j)[256 + jj] == v[256 + jj]);
    }
}

// ---------------------------------------------------------------------------
// Expansion: what a token sequence decodes to.
// ---------------------------------------------------------------------------

/// Raw bytes as token ids.
pub open spec fn byte_ids(b: Seq<u8>) -> Seq<Token> {
    b.map_values(|x: u8| x as Token)
}

/// The bytes a token sequence stands for under a vocabulary: the
/// concatenation of each id's entry, or nothing if some id has none.
pub open spec fn spec_expand(v: Seq<(Token, Seq<u8>)>, ids: Seq<Token>) -> Option<Seq<u8>>
    decreases ids.len(),
{
    if ids.len() == 0 {
        Some(Seq::empty())
    } else if has_key(v, ids[0]) {
        match spec_expand(v, ids.drop_first()) {
            Some(rest) => Some(value_of(v, ids[0]) + rest),
            None => None,
        }
    } else {
        None
    }
}

/// Expansion distributes over concatenation.
pub proof fn lemma_expand_concat(v: Seq<(Token, Seq<u8>)>, xs: Seq<Token>, ys: Seq<Token>)
    ensures
        spec_expand(v, xs + ys) == match (spec_expand(v, xs), spec_expand(v, ys)) {
            (Some(bx), Some(by)) => Some(bx + by),
            _ => None::<Seq<u8>>,
        },
    decreases xs.len(),
{
    if xs.len() == 0 {
        assert(xs + ys =~= ys);
        if spec_expand(v, ys) is Some {
            assert(spec_expand(v, xs).unwrap() + spec_expand(v, ys).unwrap() =~= spec_expand(
                v,
                ys,
            ).unwrap());
        }
    } else {
        lemma_expand_concat(v, xs.drop_first(), ys);
        assert((xs + ys)[0] == xs[0]);
        assert((xs + ys).drop_first() =~= xs.drop_first() + ys);
        if spec_expand(v, xs) is Some && spec_expand(v, ys) is Some {
            assert(value_of(v, xs[0]) + (spec_expand(v, xs.drop_first()).unwrap() + spec_expand(
                v,
                ys,
            ).unwrap()) =~= (value_of(v, xs[0]) + spec_expand(v, xs.drop_first()).unwrap())
                + spec_expand(v, ys).unwrap());
        }
    }
}

/// A raw byte sequence expands to itself.
pub proof fn lemma_expand_bytes(v: Seq<(Token, Seq<u8>)>, b: Seq<u8>)
    requires
        vocab_bytes_ok(v),
    ensures
        spec_expand(v, byte_ids(b)) == Some(b),
    decreases b.len(),
{
    if b.len() == 0 {
        assert(byte_ids(b).len() == 0);
        assert(spec_expand(v, byte_ids(b)) == Some(Seq::<u8>::empty()));
        assert(Seq::<u8>::empty() =~= b);
    } else {
        lemma_expand_bytes(v, b.drop_first());
        let ids = byte_ids(b);
        assert(ids[0] == b[0] as Token);
        assert(0 <= ids[0] < 256);
        assert(ids.drop_first() =~= byte_ids(b.drop_first()));
        assert(value_of(v, ids[0]) + b.drop_first() =~= b);
    }
}

/// Rewriting one merge whose vocabulary entry is its parents' concatenation
/// leaves the expansion unchanged.
pub proof fn lemma_merge_preserves_expand(
    v: Seq<(Token, Seq<u8>)>,
    ids: Seq<Token>,
    p: Pair,
    t: Token,
)
    requires
        has_key(v, t),
        value_of(v, t) == value_of(v, p.0) + value_of(v, p.1),
        spec_expand(v, ids) is Some,
    ensures
        spec_expand(v, spec_merge(ids, p, t)) == spec_expand(v, ids),
    decreases ids.len(),
{
    if ids.len() >= 2 && ids[0] == p.0 && ids[1] == p.1 {
        assert(spec_expand(v, ids.drop_first()) is Some);
        assert(ids.drop_first().drop_first() =~= ids.skip(2));
        lemma_merge_preserves_expand(v, ids.skip(2), p, t);
        let rest = spec_expand(v, ids.skip(2)).unwrap();
        let merged = spec_merge(ids, p, t);
        assert(merged == seq![t] + spec_merge(ids.skip(2), p, t));
        assert(merged[0] == t);
        assert(merged.drop_first() =~= spec_merge(ids.skip(2), p, t));
        assert(spec_expand(v, merged).unwrap() =~= spec_expand(v, ids).unwrap());
    } else if ids.len() >= 1 {
        assert(ids.drop_first() =~= ids.skip(1));
        lemma_merge_preserves_expand(v, ids.skip(1), p, t);
        let merged = spec_merge(ids, p, t);
        assert(merged == seq![ids[0]] + spec_merge(ids.skip(1), p, t));
        assert(merged[0] == ids[0]);
        assert(merged.drop_first() =~= spec_merge(ids.skip(1), p, t));
        assert(spec_expand(v, merged).unwrap() =~= spec_expand(v, ids).unwrap());
    }
}

/// Encoding under a merge table the vocabulary covers leaves the expansion
/// unchanged.
pub proof fn lemma_encode_preserves_expand(
    v: Seq<(Token, Seq<u8>)>,
    m: Seq<(Pair, Token)>,
    ids: Seq<Token>,
)
    requires
        vocab_covers(v, m),
        spec_expand(v, ids) is Some,
    ensures
        spec_expand(v, spec_encode(m, ids)) == spec_expand(v, ids),
    decreases ids.len(),
{
    lemma_merge_order_monotonic(m, ids);
    match spec_lowest_merge(m, ids) {
        None => {
        },
        Some(pt) => {
            let (p, t) = pt;
            lemma_merge_shrinks(ids, p, t);
            let merged = spec_merge(ids, p, t);
            if merged.len() < ids.len() {
                let j = key_index(m, p);
                lemma_key_index(m, p);
                assert(has_key(m, p));
                assert(0 <= j < m.len());
                assert(m[j].0 == p);
                assert(m[j].1 == value_of(m, p));
                assert(m[j].1 == t);
                assert(has_key(v, m[j].1));
                assert(value_of(v, m[j].1) == value_of(v, m[j].0.0) + value_of(v, m[j].0.1));
                lemma_merge_preserves_expand(v, ids, p, t);
                lemma_encode_preserves_expand(v, m, merged);
            }
        },
    }
}

/// The derived vocabulary resolves bytes and covers its merge table, also
/// after the special-token entries are appended.
pub proof fn lemma_build_vocab_covers(spv: Seq<(Seq<char>, Token)>, m: Seq<(Pair, Token)>)
    requires
        merges_wf(m),
    ensures
        vocab_bytes_ok(spec_build_vocab(spv, m)),
        vocab_covers(spec_build_vocab(spv, m), m),
    decreases m.len(),
{
    let va = spec_vocab_after(m, m.len() as int);
    let v = spec_build_vocab(spv, m);
    let sv = spec_special_vocab(spv);
    lemma_vocab_after_covers(m, m.len() as int);
    assert(m.take(m.len() as int) =~= m);
    assert forall|t: Token| 0 <= t < 256 implies #[trigger] has_key(v, t) && value_of(v, t)
        == seq![t as u8] by {
        lemma_vocab_byte_entry(m, m.len() as int, t);
        lemma_stable_append(va, sv, t);
    }
    assert forall|j: int| 0 <= j < m.len() implies #[trigger] has_key(v, m[j].1) && value_of(
        v,
        m[j].1,
    ) == value_of(v, m[j].0.0) + value_of(v, m[j].0.1) by {
        lemma_vocab_entry_parents(m, j, m.len() as int);
        assert(has_key(va, m.take(m.len() as int)[j].1) && value_of(va, m.take(m.len() as int)[j].1)
            == value_of(va, m.take(m.len() as int)[j].0.0) + value_of(
            va,
            m.take(m.len() as int)[j].0.1,
        ));
        lemma_stable_append(va, sv, m[j].1);
        lemma_stable_append(va, sv, m[j].0.0);
        lemma_stable_append(va, sv, m[j].0.1);
    }
}

/// Appending entries preserves the value found for a present key.
pub proof fn lemma_stable_append<K, V>(a: Seq<(K, V)>, b: Seq<(K, V)>, k: K)
    requires
        has_key(a, k),
    ensures
        has_key(a + b, k),
        value_of(a + b, k) == value_of(a, k),
{
    lemma_key_index_append(a, b, k);
    lemma_key_index(a, k);
    assert((a + b)[key_index(a, k)] == a[key_index(a, k)]);
}

/// The view of an executable special-token table.
pub open spec fn specials_view(sp: Seq<(String, Token)>) -> Seq<(Seq<char>, Token)> {
    sp.map_values(|e: (String, Token)| (e.0@, e.1))
}

/// Entry lookup by token key: index of the first entry whose key is `t`.
pub(crate) fn find_token_index<V>(m: &Vec<(Token, V)>, t: Token) -> (r: Option<usize>)
    ensures
        match r {
            Some(i) => key_index(m@, t) == i && i < m@.len() && m@[i as int].0 == t,
            None => key_index(m@, t) == -1,
        },
{
    let n = m.len();
    let mut i: usize = 0;
    while i < n
        invariant
            n == m@.len(),
            i <= n,
            forall|j: int| 0 <= j < i ==> m@[j].0 != t,
        decreases n - i,
    {
        if m[i].0 == t {
            proof {
                lemma_key_index(m@, t);
                let ki = key_index(m@, t);
                assert(ki != -1);
                if ki < i {
                    assert(m@[ki].0 != t);
                }
                if ki > i {
                    assert(m@[i as int].0 != t);
                }
            }
            return Some(i);
        }
        i += 1;
    }
    proof {
        lemma_key_index(m@, t);
        let ki = key_index(m@, t);
        if ki >= 0 {
            assert(m@[ki].0 != t);
        }
    }
    None
}

/// Derives the vocabulary deterministically from merges and special
/// tokens: the 256 raw byte entries, then one entry per merge — the
/// concatenation of its parents' bytes — then the special tokens' UTF-8.
pub fn build_vocab(special_tokens: &Vec<(String, Token)>, merges: &Vec<(Pair, Token)>) -> (vocab:
    Vec<(Token, Vec<u8>)>)
    requires
        merges_wf(merges@),
    ensures
        vocab_view(vocab@) == spec_build_vocab(specials_view(special_tokens@), merges@),
{
    let mut vocab: Vec<(Token, Vec<u8>)> = Vec::new();
    proof {
        assert(vocab_view(vocab@) =~= spec_base_vocab().take(0));
    }
    let mut b: usize = 0;
    while b < 256
        invariant
            b <= 256,
            vocab@.len() == b,
            vocab_view(vocab@) == spec_base_vocab().take(b as int),
        decreases 256 - b,
    {
        let mut one: Vec<u8> = Vec::new();
        one.push(b as u8);
        vocab.push((b as Token, one));
        proof {
            assert(vocab_view(vocab@) =~= spec_base_vocab().take(b as int + 1));
        }
        b += 1;
    }
    proof {
        assert(spec_base_vocab().take(256) =~= spec_vocab_after(merges@, 0));
    }
    let nm = merges.len();
    let mut k: usize = 0;
    while k < nm
        invariant
            k <= nm == merges@.len(),
            merges_wf(merges@),
            vocab@.len() == 256 + k,
            vocab_view(vocab@) == spec_vocab_after(merges@, k as int),
        decreases nm - k,
    {
        let ghost va = spec_vocab_after(merges@, k as int);
        let pair = merges[k].0;
        let t = merges[k].1;
        proof {
            assert(merge_entry_wf(merges@, k as int));
            lemma_vocab_after_structure(merges@, k as int);
            if pair.0 < 256 {
                lemma_vocab_byte_entry(merges@, k as int, pair.0);
            } else {
                let jj = choose|jj: int|
                    0 <= jj < k && #[trigger] merges@[jj].1 == merges@[k as int].0.0;
                lemma_vocab_merge_entry(merges@, k as int, jj);
            }
            if pair.1 < 256 {
                lemma_vocab_byte_entry(merges@, k as int, pair.1);
            } else {
                let jj = choose|jj: int|
                    0 <= jj < k && #[trigger] merges@[jj].1 == merges@[k as int].0.1;
                lemma_vocab_merge_entry(merges@, k as int, jj);
            }
            lemma_view_key_index(vocab@, pair.0);
            lemma_view_key_index(vocab@, pair.1);
        }
        let i0 = match find_token_index(&vocab, pair.0) {
            Some(i) => i,
            None => vstd::pervasive::unreached(),
        };
        let i1 = match find_token_index(&vocab, pair.1) {
            Some(i) => i,
            None => vstd::pervasive::unreached(),
        };
        let mut bytes: Vec<u8> = Vec::new();
        bytes.extend_from_slice(vocab[i0].1.as_slice());
        bytes.extend_from_slice(vocab[i1].1.as_slice());
        proof {
            assert(vocab_view(vocab@)[i0 as int].1 == vocab@[i0 as int].1@);
            assert(vocab_view(vocab@)[i1 as int].1 == vocab@[i1 as int].1@);
            assert(bytes@ == value_of(va, pair.0) + value_of(va, pair.1));
        }
        vocab.push((t, bytes));
        proof {
            assert(vocab_view(vocab@) =~= va.push(
                (
                    merges@[k as int].1,
                    value_of(va, merges@[k as int].0.0) + value_of(va, merges@[k as int].0.1),
                ),
            ));
        }
        k += 1;
    }
    let ns = special_tokens.len();
    let mut s: usize = 0;
    proof {
        assert(vocab_view(vocab@) =~= spec_vocab_after(merges@, merges@.len() as int)
            + spec_special_vocab(specials_view(special_tokens@).take(0)));
    }
    while s < ns
        invariant
            s <= ns == special_tokens@.len(),
            vocab_view(vocab@) == spec_vocab_after(merges@, merges@.len() as int)
                + spec_special_vocab(specials_view(special_tokens@).take(s as int)),
        decreases ns - s,
    {
        let ghost prev = vocab_view(vocab@);
        let id = special_tokens[s].1;
        let bytes = special_tokens[s].0.as_str().as_bytes_vec();
        vocab.push((id, bytes));
        proof {
            let sv = specials_view(special_tokens@);
            assert(sv[s as int] == (special_tokens@[s as int].0@, special_tokens@[s as int].1));
            assert(bytes@ == vstd::utf8::encode_utf8(special_tokens@[s as int].0@));
            assert(vocab_view(vocab@) =~= prev.push((id, bytes@)));
            assert(spec_special_vocab(sv.take(s as int + 1)) =~= spec_special_vocab(
                sv.take(s as int),
            ).push((id, bytes@)));
            assert(vocab_view(vocab@) =~= spec_vocab_after(merges@, merges@.len() as int)
                + spec_special_vocab(sv.take(s as int + 1)));
        }
        s += 1;
    }
    proof {
        assert(specials_view(special_tokens@).take(ns as int) =~= specials_view(special_tokens@));
    }
    vocab
}

/// Round trip: under a well-formed merge table and its derived vocabulary,
/// whatever special tokens are registered, the encoding of any byte
/// sequence expands back to exactly those bytes.
pub proof fn lemma_encode_expand_round_trip(
    spv: Seq<(Seq<char>, Token)>,
    m: Seq<(Pair, Token)>,
    b: Seq<u8>,
)
    requires
        merges_wf(m),
    ensures
        spec_expand(spec_build_vocab(spv, m), spec_encode(m, byte_ids(b))) == Some(b),
{
    let v = spec_build_vocab(spv, m);
    lemma_build_vocab_covers(spv, m);
    lemma_expand_bytes(v, b);
    lemma_encode_preserves_expand(v, m, byte_ids(b));
}

// ---------------------------------------------------------------------------
// Greedy merge training.
// ---------------------------------------------------------------------------

/// A token the training state may contain: minted before `next`, and
/// either a raw byte or the token of some recorded merge.
pub open spec fn token_valid(m: Seq<(Pair, Token)>, next: int, t: Token) -> bool {
    &&& 0 <= t < next
    &&& (t < 256 || exists|j: int| 0 <= j < m.len() && #[trigger] m[j].1 == t)
}

/// All tokens of all chunks are valid training-state tokens.
pub open spec fn chunks_tokens_valid(chunks: Seq<Seq<Token>>, m: Seq<(Pair, Token)>, next: int) -> bool {
    forall|c: int, k: int|
        0 <= c < chunks.len() && 0 <= k < chunks[c].len() ==> token_valid(
            m,
            next,
            #[trigger] chunks[c][k],
        )
}

/// Every key of the statistics has valid components.
pub open spec fn stats_keys_valid(s: Seq<(Pair, Count)>, m: Seq<(Pair, Token)>, next: int) -> bool {
    forall|e: int|
        0 <= e < s.len() ==> token_valid(m, next, (#[trigger] s[e]).0.0) && token_valid(
            m,
            next,
            s[e].0.1,
        )
}

/// The combined statistics over a list of chunks, left to right.
pub open spec fn spec_stats_all(chunks: Seq<Seq<Token>>, m: Seq<(Pair, Count)>) -> Seq<
    (Pair, Count),
>
    decreases chunks.len(),
{
    if chunks.len() == 0 {
        m
    } else {
        spec_stats_all(chunks.drop_first(), spec_update_stats(chunks[0], m))
    }
}

/// One training iteration: count pairs across all chunks, pick the max
/// with the first-inserted tie-break, and rewrite every chunk; or nothing,
/// when no adjacent pair exists anywhere.
pub open spec fn spec_train_step(chunks: Seq<Seq<Token>>, new_id: Token) -> Option<
    (Pair, Seq<Seq<Token>>),
> {
    match spec_select_max(spec_stats_all(chunks, Seq::empty())) {
        None => None,
        Some(pc) => Some(
            (pc.0, chunks.map_values(|c: Seq<Token>| spec_merge(c, pc.0, new_id))),
        ),
    }
}

/// The merge table trained by `num` iterations, token ids minted
/// sequentially from `next_id`; or nothing, when some iteration finds no
/// pair to merge.
pub open spec fn spec_train(
    chunks: Seq<Seq<Token>>,
    num: int,
    next_id: int,
    acc: Seq<(Pair, Token)>,
) -> Option<Seq<(Pair, Token)>>
    decreases num,
{
    if num <= 0 {
        Some(acc)
    } else {
        match spec_train_step(chunks, next_id as Token) {
            None => None,
            Some(x) => spec_train(x.1, num - 1, next_id + 1, acc.push((x.0, next_id as Token))),
        }
    }
}

/// Folding a sequence into statistics only adds keys made of its tokens.
proof fn lemma_update_stats_keys(
    ids: Seq<Token>,
    s: Seq<(Pair, Count)>,
    m: Seq<(Pair, Token)>,
    next: int,
)
    requires
        stats_keys_valid(s, m, next),
        forall|k: int| 0 <= k < ids.len() ==> token_valid(m, next, #[trigger] ids[k]),
    ensures
        stats_keys_valid(spec_update_stats(ids, s), m, next),
    decreases ids.len(),
{
    if ids.len() >= 2 {
        let s2 = spec_bump(s, (ids[0], ids[1]));
        assert(stats_keys_valid(s2, m, next)) by {
            lemma_key_index(s, (ids[0], ids[1]));
            assert forall|e: int|
                0 <= e < s2.len() implies token_valid(m, next, (#[trigger] s2[e]).0.0)
                && token_valid(m, next, s2[e].0.1) by {
                if e < s.len() && s2[e] != s[e] {
                    assert(s2[e].0 == s[e].0);
                }
            }
        }
        assert forall|k: int|
            0 <= k < ids.drop_first().len() implies token_valid(
            m,
            next,
            #[trigger] ids.drop_first()[k],
        ) by {
            assert(ids.drop_first()[k] == ids[k + 1]);
        }
        lemma_update_stats_keys(ids.drop_first(), s2, m, next);
    }
}

/// Combined statistics across valid chunks have valid key components.
proof fn lemma_stats_all_keys(
    chunks: Seq<Seq<Token>>,
    s: Seq<(Pair, Count)>,
    m: Seq<(Pair, Token)>,
    next: int,
)
    requires
        stats_keys_valid(s, m, next),
        chunks_tokens_valid(chunks, m, next),
    ensures
        stats_keys_valid(spec_stats_all(chunks, s), m, next),
    decreases chunks.len(),
{
    if chunks.len() > 0 {
        assert forall|k: int|
            0 <= k < chunks[0].len() implies token_valid(m, next, #[trigger] chunks[0][k]) by {
            assert(chunks_tokens_valid(chunks, m, next));
        }
        lemma_update_stats_keys(chunks[0], s, m, next);
        assert forall|c: int, k: int|
            0 <= c < chunks.drop_first().len() && 0 <= k < chunks.drop_first()[c].len()
            implies token_valid(m, next, #[trigger] chunks.drop_first()[c][k]) by {
            assert(chunks.drop_first()[c] == chunks[c + 1]);
        }
        lemma_stats_all_keys(chunks.drop_first(), spec_update_stats(chunks[0], s), m, next);
    }
}

/// Every token of a merged sequence is the new token or one of the old.
proof fn lemma_merge_tokens(ids: Seq<Token>, p: Pair, new_id: Token, m: Seq<(Pair, Token)>, next: int)
    requires
        forall|k: int| 0 <= k < ids.len() ==> token_valid(m, next, #[trigger] ids[k]),
        token_valid(m.push((p, new_id)), next + 1, new_id),
    ensures
        forall|k: int|
            0 <= k < spec_merge(ids, p, new_id).len() ==> token_valid(
                m.push((p, new_id)),
                next + 1,
                #[trigger] spec_merge(ids, p, new_id)[k],
            ),
    decreases ids.len(),
{
    let res = spec_merge(ids, p, new_id);
    assert forall|t: Token| token_valid(m, next, t) implies token_valid(
        m.push((p, new_id)),
        next + 1,
        t,
    ) by {
        if t >= 256 {
            let j = choose|j: int| 0 <= j < m.len() && #[trigger] m[j].1 == t;
            assert(m.push((p, new_id))[j].1 == t);
        }
    }
    if ids.len() >= 2 && ids[0] == p.0 && ids[1] == p.1 {
        assert forall|k: int|
            0 <= k < ids.skip(2).len() implies token_valid(m, next, #[trigger] ids.skip(2)[k]) by {
            assert(ids.skip(2)[k] == ids[k + 2]);
        }
        lemma_merge_tokens(ids.skip(2), p, new_id, m, next);
        assert forall|k: int|
            0 <= k < res.len() implies token_valid(m.push((p, new_id)), next + 1, #[trigger] res[k]) by {
            if k > 0 {
                assert(res[k] == spec_merge(ids.skip(2), p, new_id)[k - 1]);
            }
        }
    } else if ids.len() >= 1 {
        assert forall|k: int|
            0 <= k < ids.skip(1).len() implies token_valid(m, next, #[trigger] ids.skip(1)[k]) by {
            assert(ids.skip(1)[k] == ids[k + 1]);
        }
        lemma_merge_tokens(ids.skip(1), p, new_id, m, next);
        assert forall|k: int|
            0 <= k < res.len() implies token_valid(m.push((p, new_id)), next + 1, #[trigger] res[k]) by {
            if k > 0 {
                assert(res[k] == spec_merge(ids.skip(1), p, new_id)[k - 1]);
            }
        }
    }
}

/// Appending a well-formed entry keeps a merge table well-formed.
pub proof fn lemma_merges_wf_push(m: Seq<(Pair, Token)>, p: Pair, new_id: Token, next: int)
    requires
        merges_wf(m),
        forall|j: int| 0 <= j < m.len() ==> (#[trigger] m[j].1) < next,
        256 <= next == new_id,
        token_valid(m, next, p.0),
        token_valid(m, next, p.1),
    ensures
        merges_wf(m.push((p, new_id))),
{
    let m2 = m.push((p, new_id));
    assert forall|i: int| 0 <= i < m2.len() implies #[trigger] merge_entry_wf(m2, i) by {
        if i < m.len() {
            assert(merge_entry_wf(m, i));
            assert forall|j: int| 0 <= j < i implies #[trigger] m2[j].1 < m2[i].1 by {
                assert(m[j].1 < m[i].1);
            }
            if m[i].0.0 >= 256 {
                let j = choose|j: int| 0 <= j < i && #[trigger] m[j].1 == m[i].0.0;
                assert(m2[j].1 == m2[i].0.0);
            }
            if m[i].0.1 >= 256 {
                let j = choose|j: int| 0 <= j < i && #[trigger] m[j].1 == m[i].0.1;
                assert(m2[j].1 == m2[i].0.1);
            }
        } else {
            assert(m2[i] == (p, new_id));
            if p.0 >= 256 {
                let j = choose|j: int| 0 <= j < m.len() && #[trigger] m[j].1 == p.0;
                assert(m2[j].1 == m2[i].0.0);
            }
            if p.1 >= 256 {
                let j = choose|j: int| 0 <= j < m.len() && #[trigger] m[j].1 == p.1;
                assert(m2[j].1 == m2[i].0.1);
            }
        }
    }
}

/// The view of a chunk list.
pub open spec fn chunks_view(chunks: Seq<Vec<Token>>) -> Seq<Seq<Token>> {
    chunks.map_values(|c: Vec<Token>| c@)
}

/// Trains a merge table greedily: `num_merges` times, count pairs across
/// all chunks, merge the most frequent pair — first-inserted on a tie —
/// everywhere, and mint the next token id, starting at 256. Fails with
/// `TrainingExhaustionError` as soon as an iteration finds no adjacent
/// pair at all, leaving no result.
#[verifier::loop_isolation(false)]
pub fn train_merges(chunks: Vec<Vec<Token>>, num_merges: i32) -> (r: Result<
    Vec<(Pair, Token)>,
    TokenizerError,
>)
    requires
        0 <= num_merges <= i32::MAX - 256,
        chunks_tokens_valid(chunks_view(chunks@), Seq::empty(), 256),
    ensures
        match r {
            Ok(m) => {
                &&& Some(m@) == spec_train(chunks_view(chunks@), num_merges as int, 256, Seq::empty())
                &&& merges_wf(m@)
                &&& m@.len() == num_merges
                &&& forall|j: int| 0 <= j < m@.len() ==> (#[trigger] m@[j].1) == 256 + j
            },
            Err(e) => {
                &&& e == TokenizerError::TrainingExhaustionError
                &&& spec_train(chunks_view(chunks@), num_merges as int, 256, Seq::empty()) is None
            },
        },
{
    let ghost chunks0 = chunks_view(chunks@);
    let mut cur = chunks;
    let mut merges: Vec<(Pair, Token)> = Vec::new();
    let mut i: i32 = 0;
    while i < num_merges
        invariant
            0 <= i <= num_merges <= i32::MAX - 256,
            merges@.len() == i,
            spec_train(chunks0, num_merges as int, 256, Seq::empty()) == spec_train(
                chunks_view(cur@),
                num_merges - i,
                256 + i,
                merges@,
            ),
            merges_wf(merges@),
            chunks_tokens_valid(chunks_view(cur@), merges@, 256 + i),
            forall|j: int| 0 <= j < merges@.len() ==> (#[trigger] merges@[j].1) == 256 + j,
        decreases num_merges - i,
    {
        let ghost curv = chunks_view(cur@);
        // Combined statistics across all chunks.
        let mut stats: Vec<(Pair, Count)> = Vec::new();
        proof {
            assert(curv.skip(0) =~= curv);
        }
        let nc = cur.len();
        let mut c: usize = 0;
        while c < nc
            invariant
                c <= nc == cur@.len(),
                curv == chunks_view(cur@),
                spec_stats_all(curv, Seq::empty()) == spec_stats_all(
                    curv.skip(c as int),
                    stats@,
                ),
            decreases nc - c,
        {
            update_stats(&cur[c], &mut stats);
            proof {
                let rest = curv.skip(c as int);
                assert(rest[0] == cur@[c as int]@);
                assert(rest.drop_first() =~= curv.skip(c as int + 1));
            }
            c += 1;
        }
        proof {
            assert(curv.skip(nc as int) =~= Seq::<Seq<Token>>::empty());
        }
        // The most frequent pair, earliest-inserted on a tie.
        match get_max_entry(&stats) {
            None => {
                proof {
                    assert(spec_stats_all(curv, Seq::<(Pair, Count)>::empty()) == stats@);
                    assert(spec_select_max(stats@) is None);
                    assert(spec_train_step(curv, (256 + i) as Token) is None);
                    assert(spec_train(curv, num_merges - i, 256 + i as int, merges@) is None);
                    assert(spec_train(chunks0, num_merges as int, 256, Seq::<(Pair, Token)>::empty())
                        is None);
                }
                return Err(TokenizerError::TrainingExhaustionError);
            },
            Some(pc) => {
                let pair = pc.0;
                let new_id: i32 = 256 + i;
                proof {
                    lemma_stats_all_keys(curv, Seq::empty(), merges@, 256 + i);
                    lemma_select_max_tie_break(stats@);
                    assert(token_valid(merges@, 256 + i, pair.0) && token_valid(
                        merges@,
                        256 + i,
                        pair.1,
                    )) by {
                        let mi = spec_max_index(stats@, stats@.len() as int);
                        assert(stats@[mi].0 == pair);
                    }
                    lemma_merges_wf_push(merges@, pair, new_id, 256 + i);
                }
                // Rewrite every chunk.
                let mut newchunks: Vec<Vec<Token>> = Vec::new();
                let mut c2: usize = 0;
                while c2 < nc
                    invariant
                        c2 <= nc == cur@.len(),
                        curv == chunks_view(cur@),
                        newchunks@.len() == c2,
                        chunks_view(newchunks@) == curv.take(c2 as int).map_values(
                            |ch: Seq<Token>| spec_merge(ch, pair, new_id),
                        ),
                    decreases nc - c2,
                {
                    let ghost prevv = chunks_view(newchunks@);
                    let merged_chunk = merge(&cur[c2], pair, new_id);
                    newchunks.push(merged_chunk);
                    proof {
                        let f = |ch: Seq<Token>| spec_merge(ch, pair, new_id);
                        assert(chunks_view(newchunks@) =~= prevv.push(merged_chunk@));
                        assert(merged_chunk@ == f(curv[c2 as int]));
                        assert(curv.take(c2 as int + 1).map_values(f) =~= curv.take(
                            c2 as int,
                        ).map_values(f).push(f(curv[c2 as int])));
                        assert(chunks_view(newchunks@) =~= curv.take(c2 as int + 1).map_values(f));
                    }
                    c2 += 1;
                }
                proof {
                    assert(curv.take(nc as int) =~= curv);
                    let stepped = curv.map_values(|ch: Seq<Token>| spec_merge(ch, pair, new_id));
                    assert(chunks_view(newchunks@) == stepped);
                    // The step taken matches the specification's step.
                    assert(spec_train_step(curv, new_id) == Some((pair, stepped)));
                    // Token validity carries to the rewritten chunks.
                    assert forall|cc: int, k: int|
                        0 <= cc < stepped.len() && 0 <= k < stepped[cc].len() implies token_valid(
                        merges@.push((pair, new_id)),
                        256 + i + 1,
                        #[trigger] stepped[cc][k],
                    ) by {
                        assert forall|k2: int|
                            0 <= k2 < curv[cc].len() implies token_valid(
                            merges@,
                            256 + i,
                            #[trigger] curv[cc][k2],
                        ) by {
                            assert(chunks_tokens_valid(curv, merges@, 256 + i));
                        }
                        assert(token_valid(merges@.push((pair, new_id)), 256 + i + 1, new_id)) by {
                            let m2 = merges@.push((pair, new_id));
                            assert(m2[m2.len() - 1].1 == new_id);
                        }
                        lemma_merge_tokens(curv[cc], pair, new_id, merges@, 256 + i);
                        assert(stepped[cc] == spec_merge(curv[cc], pair, new_id));
                    }
                }
                cur = newchunks;
                merges.push((pair, new_id));
                proof {
                    assert forall|j: int|
                        0 <= j < merges@.len() implies (#[trigger] merges@[j].1) == 256 + j by {}
                }
            },
        }
        i += 1;
    }
    Ok(merges)
}

// ---------------------------------------------------------------------------
// Text boundary helpers.
// ---------------------------------------------------------------------------

/// Raw bytes as a token sequence, one token per byte.
pub fn bytes_to_ids(bytes: &Vec<u8>) -> (r: Vec<Token>)
    ensures
        r@ == byte_ids(bytes@),
        forall|k: int| 0 <= k < r@.len() ==> 0 <= #[trigger] r@[k] < 256,
{
    let n = bytes.len();
    let mut r: Vec<Token> = Vec::new();
    let mut i: usize = 0;
    while i < n
        invariant
            n == bytes@.len(),
            i <= n,
            r@ == byte_ids(bytes@.take(i as int)),
            forall|k: int| 0 <= k < r@.len() ==> 0 <= #[trigger] r@[k] < 256,
        decreases n - i,
    {
        r.push(bytes[i] as Token);
        proof {
            assert(r@ =~= byte_ids(bytes@.take(i as int + 1)));
        }
        i += 1;
    }
    proof {
        assert(bytes@.take(n as int) =~= bytes@);
    }
    r
}

/// The characters `String::from_utf8_lossy` renders a byte sequence as; a
/// function of the bytes alone.
pub uninterp spec fn lossy_of(bytes: Seq<u8>) -> Seq<char>;

/// Relies on `String::from_utf8_lossy`: the result is determined by the
/// bytes alone, and a valid UTF-8 sequence decodes to exactly its
/// characters; invalid sequences render with replacement characters.
#[verifier::external_body]
pub(crate) fn lossy_string(bytes: &Vec<u8>) -> (r: String)
    ensures
        r@ == lossy_of(bytes@),
        vstd::utf8::valid_utf8(bytes@) ==> r@ == vstd::utf8::decode_utf8(bytes@),
{
    String::from_utf8_lossy(bytes.as_slice()).into_owned()
}

/// Determinism: the trained merge table is a function of the chunk
/// sequence and the number of merges alone — two successful training runs
/// over the same input agree exactly.
pub proof fn lemma_train_deterministic(
    chunks: Seq<Seq<Token>>,
    num: int,
    r1: Seq<(Pair, Token)>,
    r2: Seq<(Pair, Token)>,
)
    requires
        Some(r1) == spec_train(chunks, num, 256, Seq::<(Pair, Token)>::empty()),
        Some(r2) == spec_train(chunks, num, 256, Seq::<(Pair, Token)>::empty()),
    ensures
        r1 == r2,
{
}

/// A token that encoding can ever emit: a raw byte token or the token of
/// some merge in the table.
pub open spec fn output_token_ok(m: Seq<(Pair, Token)>, t: Token) -> bool {
    0 <= t < 256 || exists|j: int| 0 <= j < m.len() && (#[trigger] m[j]).1 == t
}

/// Every token of a merged sequence is the merge's token or one of the
/// input's.
proof fn lemma_merge_elems(ids: Seq<Token>, p: Pair, new_id: Token)
    ensures
        forall|k: int|
            0 <= k < spec_merge(ids, p, new_id).len() ==> (#[trigger] spec_merge(ids, p, new_id)[k])
                == new_id || (exists|k2: int| 0 <= k2 < ids.len() && #[trigger] ids[k2] == spec_merge(
                ids,
                p,
                new_id,
            )[k]),
    decreases ids.len(),
{
    let res = spec_merge(ids, p, new_id);
    if ids.len() >= 2 && ids[0] == p.0 && ids[1] == p.1 {
        lemma_merge_elems(ids.skip(2), p, new_id);
        assert forall|k: int|
            0 <= k < res.len() implies (#[trigger] res[k]) == new_id || (exists|k2: int|
            0 <= k2 < ids.len() && #[trigger] ids[k2] == res[k]) by {
            if k > 0 {
                let sub = spec_merge(ids.skip(2), p, new_id);
                assert(res[k] == sub[k - 1]);
                if sub[k - 1] != new_id {
                    let k2 = choose|k2: int|
                        0 <= k2 < ids.skip(2).len() && #[trigger] ids.skip(2)[k2] == sub[k - 1];
                    assert(ids[k2 + 2] == res[k]);
                }
            }
        }
    } else if ids.len() >= 1 {
        lemma_merge_elems(ids.skip(1), p, new_id);
        assert forall|k: int|
            0 <= k < res.len() implies (#[trigger] res[k]) == new_id || (exists|k2: int|
            0 <= k2 < ids.len() && #[trigger] ids[k2] == res[k]) by {
            if k == 0 {
                assert(ids[0] == res[0]);
            } else {
                let sub = spec_merge(ids.skip(1), p, new_id);
                assert(res[k] == sub[k - 1]);
                if sub[k - 1] != new_id {
                    let k2 = choose|k2: int|
                        0 <= k2 < ids.skip(1).len() && #[trigger] ids.skip(1)[k2] == sub[k - 1];
                    assert(ids[k2 + 1] == res[k]);
                }
            }
        }
    }
}

/// Encoding emits only raw byte tokens and merge tokens: a sequence whose
/// tokens the table can emit encodes to one whose tokens it can emit.
pub proof fn lemma_encode_tokens_ok(m: Seq<(Pair, Token)>, ids: Seq<Token>)
    requires
        forall|k: int| 0 <= k < ids.len() ==> output_token_ok(m, #[trigger] ids[k]),
    ensures
        forall|k: int|
            0 <= k < spec_encode(m, ids).len() ==> output_token_ok(m, #[trigger] spec_encode(m, ids)[k]),
    decreases ids.len(),
{
    lemma_merge_order_monotonic(m, ids);
    let res = spec_encode(m, ids);
    match spec_lowest_merge(m, ids) {
        None => {
            assert forall|k: int| 0 <= k < res.len() implies output_token_ok(m, #[trigger] res[k]) by {
                assert(res[k] == ids[k]);
                assert(output_token_ok(m, ids[k]));
            }
        },
        Some(pt) => {
            let (p, t) = pt;
            lemma_merge_shrinks(ids, p, t);
            let merged = spec_merge(ids, p, t);
            if merged.len() < ids.len() {
                lemma_merge_elems(ids, p, t);
                assert forall|k: int|
                    0 <= k < merged.len() implies output_token_ok(m, #[trigger] merged[k]) by {
                    if merged[k] == t {
                        let j = key_index(m, p);
                        lemma_key_index(m, p);
                        assert(m[j].1 == t);
                    } else {
                        let k2 = choose|k2: int|
                            0 <= k2 < ids.len() && #[trigger] ids[k2] == merged[k];
                        assert(output_token_ok(m, ids[k2]));
                    }
                }
                lemma_encode_tokens_ok(m, merged);
                assert forall|k: int|
                    0 <= k < res.len() implies output_token_ok(m, #[trigger] res[k]) by {
                    assert(res[k] == spec_encode(m, merged)[k]);
                    assert(output_token_ok(m, spec_encode(m, merged)[k]));
                }
            } else {
                assert forall|k: int|
                    0 <= k < res.len() implies output_token_ok(m, #[trigger] res[k]) by {
                    assert(res[k] == ids[k]);
                    assert(output_token_ok(m, ids[k]));
                }
            }
        },
    }
}

/// How often a token occurs in a sequence.
pub open spec fn count_token(ids: Seq<Token>, t: Token) -> int
    decreases ids.len(),
{
    if ids.len() == 0 {
        0
    } else {
        (if ids[0] == t {
            1int
        } else {
            0int
        }) + count_token(ids.drop_first(), t)
    }
}

/// Counting distributes over concatenation.
pub proof fn lemma_count_token_concat(xs: Seq<Token>, ys: Seq<Token>, t: Token)
    ensures
        count_token(xs + ys, t) == count_token(xs, t) + count_token(ys, t),
    decreases xs.len(),
{
    if xs.len() == 0 {
        assert(xs + ys =~= ys);
    } else {
        lemma_count_token_concat(xs.drop_first(), ys, t);
        assert((xs + ys)[0] == xs[0]);
        assert((xs + ys).drop_first() =~= xs.drop_first() + ys);
    }
}

/// A token absent from a sequence has count zero.
pub proof fn lemma_count_token_absent(ids: Seq<Token>, t: Token)
    requires
        forall|k: int| 0 <= k < ids.len() ==> (#[trigger] ids[k]) != t,
    ensures
        count_token(ids, t) == 0,
    decreases ids.len(),
{
    if ids.len() > 0 {
        assert forall|k: int| 0 <= k < ids.drop_first().len() implies (#[trigger] ids.drop_first()[k])
            != t by {
            assert(ids.drop_first()[k] == ids[k + 1]);
        }
        lemma_count_token_absent(ids.drop_first(), t);
    }
}

} // verus!
