//! Compatibility recovery: derives a merge table and a byte permutation
//! from an externally supplied rank table — a total order over byte
//! strings whose rank doubles as the token id — so that encode and decode
//! reproduce the foreign tokenizer's output without its training data.

use vstd::prelude::*;

use base64::Engine;

use crate::base::build_vocab;
use crate::base::byte_ids;
use crate::base::bytes_to_ids;
use crate::base::encode_ids;
use crate::base::has_key;
use crate::base::key_index;
use crate::base::lemma_key_index;
use crate::base::lemma_merges_wf_push;
use crate::base::lossy_of;
use crate::base::lossy_string;
use crate::base::merges_wf;
use crate::base::spec_build_vocab;
use crate::base::spec_encode;
use crate::base::spec_expand;
use crate::base::specials_view;
use crate::base::token_valid;
use crate::base::value_of;
use crate::base::vocab_view;
use crate::base::Pair;
use crate::base::Token;
use crate::base::TokenizerError;
use crate::basic::expand_ids;
use crate::fmt::spec_parse_token;
use crate::fmt::spec_split_space;
use crate::regex::gpt4_split_pattern;
use crate::regex::gpt4_split_pattern_spec;
use crate::regex::regex_compiles;
use crate::regex::regex_ok;
use crate::regex::regex_split;
use crate::regex::specials_disjoint;
use crate::regex::specials_wf;
use crate::regex::split_of;
use crate::special::any_registered_occurs;
use crate::special::contains_token;
use crate::special::occurs_in;
use crate::special::str_chars;
use vstd::string::StrSliceExecFns;
use vstd::string::StringExecFns;

verus! {

/// The view of a rank table: byte strings and their ranks, in table order.
pub open spec fn rank_view(rt: Seq<(Vec<u8>, Token)>) -> Seq<(Seq<u8>, Token)> {
    rt.map_values(|e: (Vec<u8>, Token)| (e.0@, e.1))
}

/// A well-formed rank table: nonempty byte strings, ranks nonnegative and
/// strictly ascending in table order — a total order over the entries.
pub open spec fn ranks_wf(rv: Seq<(Seq<u8>, Token)>) -> bool {
    &&& forall|i: int| 0 <= i < rv.len() ==> (#[trigger] rv[i]).0.len() > 0 && rv[i].1 >= 0
    &&& forall|i: int, j: int| 0 <= i < j < rv.len() ==> (#[trigger] rv[i]).1 < (#[trigger] rv[j]).1
}

/// Whether two byte vectors hold the same bytes.
fn bytes_eq(a: &Vec<u8>, b: &Vec<u8>) -> (r: bool)
    ensures
        r == (a@ == b@),
{
    let n = a.len();
    if n != b.len() {
        proof {
            assert(a@ != b@);
        }
        return false;
    }
    let mut i: usize = 0;
    while i < n
        invariant
            n == a@.len() == b@.len(),
            i <= n,
            forall|j: int| 0 <= j < i ==> a@[j] == b@[j],
        decreases n - i,
    {
        if a[i] != b[i] {
            return false;
        }
        i += 1;
    }
    proof {
        assert(a@ =~= b@);
    }
    true
}

/// Entry lookup by byte-string key: index of the first entry whose key
/// holds exactly the bytes of `key`.
fn find_bytes_index(rt: &Vec<(Vec<u8>, Token)>, key: &Vec<u8>) -> (r: Option<usize>)
    ensures
        match r {
            Some(i) => key_index(rank_view(rt@), key@) == i && i < rt@.len() && rank_view(
                rt@,
            )[i as int].0 == key@,
            None => key_index(rank_view(rt@), key@) == -1,
        },
{
    let ghost rv = rank_view(rt@);
    let n = rt.len();
    let mut i: usize = 0;
    while i < n
        invariant
            rv == rank_view(rt@),
            n == rt@.len(),
            i <= n,
            forall|j: int| 0 <= j < i ==> (#[trigger] rv[j]).0 != key@,
        decreases n - i,
    {
        if bytes_eq(&rt[i].0, key) {
            proof {
                lemma_key_index(rv, key@);
                assert(rv[i as int].0 == key@);
                let ki = key_index(rv, key@);
                assert(ki != -1);
                if ki < i {
                    assert(rv[ki].0 != key@);
                }
                if ki > i {
                    assert(rv[i as int].0 != key@);
                }
            }
            return Some(i);
        }
        proof {
            assert(rv[i as int].0 == rt@[i as int].0@);
        }
        i += 1;
    }
    proof {
        lemma_key_index(rv, key@);
        let ki = key_index(rv, key@);
        if ki >= 0 {
            assert(rv[ki].0 != key@);
        }
    }
    None
}

// ---------------------------------------------------------------------------
// The rank-table pair-merge procedure.
// ---------------------------------------------------------------------------

/// Among the adjacent part pairs before position `n`, the one whose
/// concatenation has the smallest rank, with that rank; a later window
/// displaces the running best only with a strictly smaller rank.
pub open spec fn bpe_lowest_upto(rv: Seq<(Seq<u8>, Token)>, parts: Seq<Seq<u8>>, n: int) -> Option<
    (int, Token),
>
    decreases n,
{
    if n <= 0 {
        None
    } else {
        let prev = bpe_lowest_upto(rv, parts, n - 1);
        let cand = parts[n - 1] + parts[n];
        if has_key(rv, cand) && (prev is None || value_of(rv, cand) < prev.unwrap().1) {
            Some((n - 1, value_of(rv, cand)))
        } else {
            prev
        }
    }
}

/// The pair the procedure merges next: the adjacent pair whose
/// concatenation has the smallest rank, earliest on a tie.
pub open spec fn spec_bpe_lowest(rv: Seq<(Seq<u8>, Token)>, parts: Seq<Seq<u8>>) -> Option<
    (int, Token),
> {
    bpe_lowest_upto(rv, parts, parts.len() - 1)
}

/// The parts with the pair at `i` merged into one.
pub open spec fn spec_bpe_merge_at(parts: Seq<Seq<u8>>, i: int) -> Seq<Seq<u8>> {
    parts.take(i) + seq![parts[i] + parts[i + 1]] + parts.skip(i + 2)
}

/// The decomposition of `parts` under the rank table: while some adjacent
/// concatenation is ranked — and, under a ceiling, ranked strictly below
/// it — merge the smallest-ranked pair and repeat.
pub open spec fn spec_bpe(
    rv: Seq<(Seq<u8>, Token)>,
    parts: Seq<Seq<u8>>,
    max_rank: Option<Token>,
) -> Seq<Seq<u8>>
    decreases parts.len(),
{
    match spec_bpe_lowest(rv, parts) {
        None => parts,
        Some(ir) => {
            if max_rank is Some && ir.1 >= max_rank.unwrap() {
                parts
            } else if 0 <= ir.0 && ir.0 + 1 < parts.len() {
                spec_bpe(rv, spec_bpe_merge_at(parts, ir.0), max_rank)
            } else {
                parts
            }
        },
    }
}

/// What the merge selection returns: a window in range whose concatenation
/// carries exactly the stated rank.
proof fn lemma_bpe_lowest(rv: Seq<(Seq<u8>, Token)>, parts: Seq<Seq<u8>>, n: int)
    requires
        n < parts.len(),
    ensures
        match bpe_lowest_upto(rv, parts, n) {
            Some(ir) => 0 <= ir.0 && ir.0 < n && ir.0 + 1 < parts.len() && has_key(
                rv,
                parts[ir.0] + parts[ir.0 + 1],
            ) && value_of(rv, parts[ir.0] + parts[ir.0 + 1]) == ir.1,
            None => true,
        },
    decreases n,
{
    if n > 0 {
        lemma_bpe_lowest(rv, parts, n - 1);
    }
}

/// A token's bytes as single-byte parts.
pub open spec fn spec_singletons(b: Seq<u8>) -> Seq<Seq<u8>> {
    Seq::new(b.len(), |i: int| seq![b[i]])
}

/// Applies the rank-table pair-merge procedure to a token's bytes: start
/// from single bytes and repeatedly merge the adjacent pair whose
/// concatenation has the smallest rank below `max_rank`, until none has.
#[verifier::loop_isolation(false)]
pub fn bpe(rt: &Vec<(Vec<u8>, Token)>, token: &Vec<u8>, max_rank: Option<Token>) -> (r: Vec<
    Vec<u8>,
>)
    ensures
        r.deep_view() == spec_bpe(rank_view(rt@), spec_singletons(token@), max_rank),
{
    let ghost rv = rank_view(rt@);
    let mut parts: Vec<Vec<u8>> = Vec::new();
    let tn = token.len();
    let mut b: usize = 0;
    while b < tn
        invariant
            tn == token@.len(),
            b <= tn,
            parts.deep_view() == spec_singletons(token@).take(b as int),
        decreases tn - b,
    {
        let mut one: Vec<u8> = Vec::new();
        one.push(token[b]);
        let ghost prev = parts.deep_view();
        proof {
            assert(one.deep_view() =~= one@);
            assert(one@ =~= seq![token@[b as int]]);
        }
        parts.push(one);
        proof {
            assert(parts.deep_view() =~= prev.push(seq![token@[b as int]]));
            assert(parts.deep_view() =~= spec_singletons(token@).take(b as int + 1));
        }
        b += 1;
    }
    proof {
        assert(spec_singletons(token@).take(tn as int) =~= spec_singletons(token@));
    }
    let ghost goal = spec_bpe(rv, parts.deep_view(), max_rank);
    loop
        invariant
            rv == rank_view(rt@),
            spec_bpe(rv, parts.deep_view(), max_rank) == goal,
        decreases parts@.len(),
    {
        let ghost pv = parts.deep_view();
        let np = parts.len();
        proof {
            assert(pv.len() == np);
        }
        if np < 2 {
            proof {
                assert(spec_bpe_lowest(rv, pv) is None);
            }
            return parts;
        }
        // The adjacent pair with the smallest rank.
        let mut best: Option<(usize, Token)> = None;
        let mut k: usize = 1;
        while k < np
            invariant
                rv == rank_view(rt@),
                pv == parts.deep_view(),
                np == parts@.len(),
                np >= 2,
                1 <= k <= np,
                match best {
                    Some(ir) => Some((ir.0 as int, ir.1)) == bpe_lowest_upto(
                        rv,
                        pv,
                        k as int - 1,
                    ),
                    None => bpe_lowest_upto(rv, pv, k as int - 1) is None,
                },
            decreases np - k,
        {
            let mut cand: Vec<u8> = Vec::new();
            cand.extend_from_slice(parts[k - 1].as_slice());
            cand.extend_from_slice(parts[k].as_slice());
            proof {
                assert(pv[k as int - 1] == parts@[k as int - 1]@);
                assert(pv[k as int] == parts@[k as int]@);
                assert(cand@ == pv[k as int - 1] + pv[k as int]);
            }
            match find_bytes_index(rt, &cand) {
                Some(j) => {
                    let rank = rt[j].1;
                    proof {
                        assert(value_of(rv, cand@) == rv[j as int].1);
                        assert(rv[j as int].1 == rt@[j as int].1);
                    }
                    best = match best {
                        None => Some((k - 1, rank)),
                        Some(ir) => {
                            if rank < ir.1 {
                                Some((k - 1, rank))
                            } else {
                                Some(ir)
                            }
                        },
                    };
                },
                None => {
                },
            }
            k += 1;
        }
        match best {
            None => {
                return parts;
            },
            Some(ir) => {
                let stop = match max_rank {
                    Some(mr) => ir.1 >= mr,
                    None => false,
                };
                if stop {
                    return parts;
                }
                proof {
                    lemma_bpe_lowest(rv, pv, np as int - 1);
                }
                let i = ir.0;
                let mut cand: Vec<u8> = Vec::new();
                cand.extend_from_slice(parts[i].as_slice());
                cand.extend_from_slice(parts[i + 1].as_slice());
                proof {
                    assert(cand.deep_view() =~= cand@);
                    assert(cand@ == pv[i as int] + pv[i as int + 1]);
                }
                parts[i] = cand;
                let removed = parts.remove(i + 1);
                proof {
                    assert(parts.deep_view() =~= spec_bpe_merge_at(pv, i as int));
                    assert(parts.deep_view().len() < pv.len());
                }
            },
        }
    }
}

// ---------------------------------------------------------------------------
// Recovering merges from the rank table.
// ---------------------------------------------------------------------------

/// Whether a recovered merge may extend the table: the rank is a fresh
/// merge token above all recorded ones, and both parents resolve to a raw
/// byte or an already-recovered merge token.
pub open spec fn spec_recover_ok(
    acc: Seq<(Pair, Token)>,
    r0: Token,
    r1: Token,
    rank: Token,
) -> bool {
    &&& 256 <= rank
    &&& acc.len() == 0 || acc[acc.len() - 1].1 < rank
    &&& token_valid(acc, rank as int, r0)
    &&& token_valid(acc, rank as int, r1)
}

/// The merge table recovered from the entries of the rank table from
/// position `i` on: each multi-byte entry, in ascending rank order, is
/// decomposed under the ranks strictly below its own; a decomposition into
/// anything but two ranked parts, or one that does not extend the table
/// consistently, recovers nothing.
pub open spec fn spec_recover_from(
    rv: Seq<(Seq<u8>, Token)>,
    i: int,
    acc: Seq<(Pair, Token)>,
) -> Option<Seq<(Pair, Token)>>
    decreases rv.len() - i,
{
    if i < 0 || i >= rv.len() {
        Some(acc)
    } else if rv[i].0.len() == 1 {
        spec_recover_from(rv, i + 1, acc)
    } else {
        let parts = spec_bpe(rv, spec_singletons(rv[i].0), Some(rv[i].1));
        if parts.len() == 2 && has_key(rv, parts[0]) && has_key(rv, parts[1]) {
            let r0 = value_of(rv, parts[0]);
            let r1 = value_of(rv, parts[1]);
            if spec_recover_ok(acc, r0, r1, rv[i].1) {
                spec_recover_from(rv, i + 1, acc.push(((r0, r1), rv[i].1)))
            } else {
                None
            }
        } else {
            None
        }
    }
}

/// The merge table recovered from the whole rank table.
pub open spec fn spec_recover(rv: Seq<(Seq<u8>, Token)>) -> Option<Seq<(Pair, Token)>> {
    spec_recover_from(rv, 0, Seq::empty())
}

/// Derives a merge table from a foreign rank table: every multi-byte
/// entry, processed in table order, is decomposed under the entries ranked
/// strictly below it; a well-formed table always converges to exactly two
/// parts, whose own ranks become the merge's source pair, keyed by the
/// entry's rank. Anything else is a fatal `ConsistencyError`, recovering
/// nothing.
#[verifier::loop_isolation(false)]
pub fn recover_merges(rt: &Vec<(Vec<u8>, Token)>) -> (r: Result<
    Vec<(Pair, Token)>,
    TokenizerError,
>)
    ensures
        match r {
            Ok(m) => Some(m@) == spec_recover(rank_view(rt@)) && merges_wf(m@),
            Err(e) => e == TokenizerError::ConsistencyError && spec_recover(rank_view(rt@))
                is None,
        },
{
    let ghost rv = rank_view(rt@);
    let n = rt.len();
    let mut merges: Vec<(Pair, Token)> = Vec::new();
    let mut i: usize = 0;
    while i < n
        invariant
            i <= n,
            spec_recover(rv) == spec_recover_from(rv, i as int, merges@),
            merges_wf(merges@),
            forall|e: int, e2: int|
                0 <= e < e2 < merges@.len() ==> (#[trigger] merges@[e]).1 < (
                #[trigger] merges@[e2]).1,
        decreases n - i,
    {
        let ghost pre = merges@;
        proof {
            assert(rv[i as int].0 == rt@[i as int].0@);
        }
        if rt[i].0.len() == 1 {
            i += 1;
            continue ;
        }
        let rank = rt[i].1;
        let parts = bpe(rt, &rt[i].0, Some(rank));
        proof {
            assert(parts.deep_view() == spec_bpe(rv, spec_singletons(rv[i as int].0), Some(
                rv[i as int].1,
            )));
        }
        if parts.len() != 2 {
            proof {
                assert(spec_recover_from(rv, i as int, pre) is None);
            }
            return Err(TokenizerError::ConsistencyError);
        }
        proof {
            assert(parts.deep_view()[0] == parts@[0]@);
            assert(parts.deep_view()[1] == parts@[1]@);
        }
        let i0 = match find_bytes_index(rt, &parts[0]) {
            Some(x) => x,
            None => {
                proof {
                    assert(spec_recover_from(rv, i as int, pre) is None);
                }
                return Err(TokenizerError::ConsistencyError);
            },
        };
        let i1 = match find_bytes_index(rt, &parts[1]) {
            Some(x) => x,
            None => {
                proof {
                    assert(spec_recover_from(rv, i as int, pre) is None);
                }
                return Err(TokenizerError::ConsistencyError);
            },
        };
        let r0 = rt[i0].1;
        let r1 = rt[i1].1;
        proof {
            assert(value_of(rv, parts.deep_view()[0]) == rv[i0 as int].1 == r0);
            assert(value_of(rv, parts.deep_view()[1]) == rv[i1 as int].1 == r1);
        }
        // The recovered merge must extend the table consistently.
        let mut consistent = rank >= 256 && r0 >= 0 && r1 >= 0 && r0 < rank && r1 < rank;
        if consistent && merges.len() > 0 {
            if merges[merges.len() - 1].1 >= rank {
                consistent = false;
            }
        }
        if consistent && r0 >= 256 {
            if !has_merge_value(&merges, r0) {
                consistent = false;
            }
        }
        if consistent && r1 >= 256 {
            if !has_merge_value(&merges, r1) {
                consistent = false;
            }
        }
        if !consistent {
            proof {
                assert(!spec_recover_ok(pre, r0, r1, rv[i as int].1));
                assert(spec_recover_from(rv, i as int, pre) is None);
            }
            return Err(TokenizerError::ConsistencyError);
        }
        proof {
            assert(spec_recover_ok(pre, r0, r1, rv[i as int].1));
            assert forall|e: int| 0 <= e < pre.len() implies (#[trigger] pre[e]).1 < rank by {
                assert(pre[pre.len() - 1].1 < rank);
                if e < pre.len() - 1 {
                    assert(pre[e].1 < pre[pre.len() - 1].1);
                }
            }
            lemma_merges_wf_push(pre, (r0, r1), rank, rank as int);
        }
        merges.push(((r0, r1), rank));
        i += 1;
    }
    Ok(merges)
}

/// Whether some merge entry carries the token `t`.
fn has_merge_value(m: &Vec<(Pair, Token)>, t: Token) -> (r: bool)
    ensures
        r == exists|j: int| 0 <= j < m@.len() && (#[trigger] m@[j]).1 == t,
{
    let n = m.len();
    let mut i: usize = 0;
    while i < n
        invariant
            n == m@.len(),
            i <= n,
            forall|j: int| 0 <= j < i ==> (#[trigger] m@[j]).1 != t,
        decreases n - i,
    {
        if m[i].1 == t {
            return true;
        }
        i += 1;
    }
    false
}

// ---------------------------------------------------------------------------
// Rank-table text parsing.
// ---------------------------------------------------------------------------

/// The bytes the standard-alphabet base64 decoding of a text yields, or
/// nothing when the text is not valid base64; a function of the text
/// alone.
pub uninterp spec fn b64_of(s: Seq<char>) -> Option<Seq<u8>>;

/// Relies on `base64::engine::general_purpose::STANDARD.decode`: the
/// decoded bytes of a standard-alphabet base64 text, a function of the
/// text alone; nothing when the text is not valid base64.
#[verifier::external_body]
fn b64_decode(s: &str) -> (r: Option<Vec<u8>>)
    ensures
        match r {
            Some(v) => b64_of(s@) == Some(v@),
            None => b64_of(s@) is None,
        },
{
    base64::engine::general_purpose::STANDARD.decode(s).ok()
}

/// What a rank-table line stands for: a base64 byte string before the
/// first space, a decimal rank after it; the bytes must be nonempty.
pub open spec fn spec_parse_rank_line(line: Seq<char>) -> Option<(Seq<u8>, Token)> {
    match spec_split_space(line) {
        Some(ab) => match (b64_of(ab.0), spec_parse_token(ab.1)) {
            (Some(bytes), Some(rank)) => if bytes.len() > 0 {
                Some((bytes, rank))
            } else {
                None
            },
            _ => None,
        },
        None => None,
    }
}

/// What the rank-table lines from `idx` on stand for, given the rank of
/// the previous line: every line well-formed and ranks strictly
/// ascending, or nothing.
pub open spec fn spec_parse_ranks_from(
    lines: Seq<Seq<char>>,
    idx: int,
    prev: Option<Token>,
) -> Option<Seq<(Seq<u8>, Token)>>
    decreases lines.len() - idx,
{
    if idx < 0 || idx >= lines.len() {
        Some(Seq::empty())
    } else {
        match spec_parse_rank_line(lines[idx]) {
            Some(e) => if prev is Some && e.1 <= prev.unwrap() {
                None
            } else {
                match spec_parse_ranks_from(lines, idx + 1, Some(e.1)) {
                    Some(rest) => Some(seq![e] + rest),
                    None => None,
                }
            },
            None => None,
        }
    }
}

/// What a rank-table text stands for.
pub open spec fn spec_parse_rank_table(t: Seq<char>) -> Option<Seq<(Seq<u8>, Token)>> {
    spec_parse_ranks_from(spec_lines_of(t), 0, None)
}

/// The lines of a text.
pub open spec fn spec_lines_of(t: Seq<char>) -> Seq<Seq<char>> {
    crate::fmt::spec_lines(t)
}

/// Parses a rank table from its line-oriented text form: one line per
/// entry, the byte string in base64 and its decimal rank, ranks strictly
/// ascending. Any malformed or out-of-order line is `FormatError`.
#[verifier::loop_isolation(false)]
pub fn parse_rank_table(text: &str) -> (r: Result<Vec<(Vec<u8>, Token)>, TokenizerError>)
    ensures
        match r {
            Ok(rt) => Some(rank_view(rt@)) == spec_parse_rank_table(text@) && ranks_wf(
                rank_view(rt@),
            ),
            Err(e) => e == TokenizerError::FormatError && spec_parse_rank_table(text@) is None,
        },
{
    let ghost lv = spec_lines_of(text@);
    let lines = crate::fmt::split_lines(text);
    proof {
        assert(lines.deep_view() == lv);
    }
    let n = lines.len();
    let mut rt: Vec<(Vec<u8>, Token)> = Vec::new();
    let mut prev: Option<Token> = None;
    let mut i: usize = 0;
    proof {
        assert(rank_view(rt@) =~= Seq::<(Seq<u8>, Token)>::empty());
    }
    while i < n
        invariant
            i <= n,
            spec_parse_rank_table(text@) == (match spec_parse_ranks_from(lv, i as int, prev) {
                Some(rest) => Some(rank_view(rt@) + rest),
                None => None::<Seq<(Seq<u8>, Token)>>,
            }),
            prev == (if rt@.len() == 0 {
                None::<Token>
            } else {
                Some(rank_view(rt@).last().1)
            }),
            ranks_wf(rank_view(rt@)),
        decreases n - i,
    {
        let ghost pre = rank_view(rt@);
        let line = &lines[i];
        let lchars = str_chars(line.as_str());
        proof {
            assert(lv[i as int] =~= lines@[i as int]@);
            assert(lchars@ == lv[i as int]);
        }
        let sp_idx = match crate::fmt::find_space(&lchars) {
            Some(x) => x,
            None => {
                proof {
                    assert(spec_parse_rank_line(lv[i as int]) is None);
                }
                return Err(TokenizerError::FormatError);
            },
        };
        let llen = line.as_str().unicode_len();
        let b64str = line.as_str().substring_char(0, sp_idx);
        let rankstr = line.as_str().substring_char(sp_idx + 1, llen);
        proof {
            assert(b64str@ =~= lv[i as int].take(sp_idx as int));
            assert(rankstr@ =~= lv[i as int].skip(sp_idx as int + 1));
        }
        let bytes = match b64_decode(b64str) {
            Some(v) => v,
            None => {
                proof {
                    assert(spec_parse_rank_line(lv[i as int]) is None);
                }
                return Err(TokenizerError::FormatError);
            },
        };
        let rank_chars = str_chars(rankstr);
        let rank = match crate::fmt::parse_token_chars(&rank_chars) {
            Some(v) => v,
            None => {
                proof {
                    assert(spec_parse_rank_line(lv[i as int]) is None);
                }
                return Err(TokenizerError::FormatError);
            },
        };
        if bytes.len() == 0 {
            proof {
                assert(spec_parse_rank_line(lv[i as int]) is None);
            }
            return Err(TokenizerError::FormatError);
        }
        let ascending = match prev {
            Some(p) => rank > p,
            None => true,
        };
        if !ascending {
            proof {
                assert(spec_parse_ranks_from(lv, i as int, prev) is None);
            }
            return Err(TokenizerError::FormatError);
        }
        let ghost bv = bytes@;
        let ghost old_prev = prev;
        proof {
            assert(spec_parse_rank_line(lv[i as int]) == Some((bv, rank)));
        }
        rt.push((bytes, rank));
        prev = Some(rank);
        proof {
            assert(rank_view(rt@) =~= pre.push((bv, rank)));
            match spec_parse_ranks_from(lv, i as int + 1, Some(rank)) {
                Some(r2) => {
                    assert(spec_parse_ranks_from(lv, i as int, old_prev) == Some(
                        seq![(bv, rank)] + r2,
                    ));
                    assert(pre + (seq![(bv, rank)] + r2) =~= rank_view(rt@) + r2);
                },
                None => {
                    assert(spec_parse_ranks_from(lv, i as int, old_prev) is None);
                },
            }
            let rvw = rank_view(rt@);
            assert(ranks_wf(rvw)) by {
                assert forall|e: int, e2: int|
                    0 <= e < e2 < rvw.len() implies (#[trigger] rvw[e]).1 < (
                #[trigger] rvw[e2]).1 by {
                    if e2 < pre.len() {
                        assert(pre[e].1 < pre[e2].1);
                    } else {
                        assert(rvw[e2].1 == rank);
                        if e < pre.len() - 1 {
                            assert(pre[e].1 < pre[pre.len() - 1].1);
                        }
                    }
                }
                assert forall|e: int|
                    0 <= e < rvw.len() implies (#[trigger] rvw[e]).0.len() > 0 && rvw[e].1
                    >= 0 by {
                    if e < pre.len() {
                        assert(pre[e].0.len() > 0 && pre[e].1 >= 0);
                    }
                }
            }
        }
        i += 1;
    }
    proof {
        assert(spec_parse_ranks_from(lv, n as int, prev) == Some(Seq::<(Seq<u8>, Token)>::empty()));
        assert(rank_view(rt@) + Seq::<(Seq<u8>, Token)>::empty() =~= rank_view(rt@));
    }
    Ok(rt)
}

// ---------------------------------------------------------------------------
// The recovered tokenizer.
// ---------------------------------------------------------------------------

/// The default special tokens of the recovered profile.
pub open spec fn gpt4_specials_spec() -> Seq<(Seq<char>, Token)> {
    seq![
        ("<|endoftext|>"@, 100257 as Token),
        ("<|fim_prefix|>"@, 100258 as Token),
        ("<|fim_middle|>"@, 100259 as Token),
        ("<|fim_suffix|>"@, 100260 as Token),
        ("<|endofprompt|>"@, 100276 as Token),
    ]
}

/// The default special tokens, as an executable table.
pub fn gpt4_special_tokens() -> (r: Vec<(String, Token)>)
    ensures
        specials_view(r@) == gpt4_specials_spec(),
        specials_wf(gpt4_specials_spec()),
{
    let mut r: Vec<(String, Token)> = Vec::new();
    r.push((String::from_str("<|endoftext|>"), 100257));
    r.push((String::from_str("<|fim_prefix|>"), 100258));
    r.push((String::from_str("<|fim_middle|>"), 100259));
    r.push((String::from_str("<|fim_suffix|>"), 100260));
    r.push((String::from_str("<|endofprompt|>"), 100276));
    proof {
        assert(specials_view(r@) =~= gpt4_specials_spec());
        reveal_strlit("<|endoftext|>");
        reveal_strlit("<|fim_prefix|>");
        reveal_strlit("<|fim_middle|>");
        reveal_strlit("<|fim_suffix|>");
        reveal_strlit("<|endofprompt|>");
        assert("<|fim_prefix|>"@[6] != "<|fim_middle|>"@[6]);
        assert("<|fim_prefix|>"@[6] != "<|fim_suffix|>"@[6]);
        assert("<|fim_middle|>"@[6] != "<|fim_suffix|>"@[6]);
        assert("<|endoftext|>"@.len() == 13);
        assert("<|fim_prefix|>"@.len() == 14);
        assert("<|fim_middle|>"@.len() == 14);
        assert("<|fim_suffix|>"@.len() == 14);
        assert("<|endofprompt|>"@.len() == 15);
        let sp = gpt4_specials_spec();
        assert forall|i: int| 0 <= i < sp.len() implies (#[trigger] sp[i]).0.len() > 0 && sp[i].1
            >= 256 by {
            if i == 0 {
            } else if i == 1 {
            } else if i == 2 {
            } else if i == 3 {
            } else {
            }
        }
    }
    r
}

/// A byte shuffle exists: every single byte is ranked, and its rank fits a
/// byte.
pub open spec fn spec_shuffle_ok(rv: Seq<(Seq<u8>, Token)>) -> bool {
    forall|b: int|
        0 <= b < 256 ==> #[trigger] has_key(rv, seq![b as u8]) && 0 <= value_of(rv, seq![b as u8])
            <= 255
}

/// The byte permutation the rank table defines: each raw byte maps to the
/// rank of its single-byte entry.
pub open spec fn spec_shuffle(rv: Seq<(Seq<u8>, Token)>) -> Seq<u8> {
    Seq::new(256, |b: int| value_of(rv, seq![b as u8]) as u8)
}

/// Distinct bytes take distinct shuffled values: their single-byte entries
/// are distinct, and ranks are a total order.
proof fn lemma_shuffle_injective(rv: Seq<(Seq<u8>, Token)>, b1: int, b2: int)
    requires
        ranks_wf(rv),
        spec_shuffle_ok(rv),
        0 <= b1 < 256,
        0 <= b2 < 256,
        b1 != b2,
    ensures
        value_of(rv, seq![b1 as u8]) != value_of(rv, seq![b2 as u8]),
        spec_shuffle(rv)[b1] != spec_shuffle(rv)[b2],
{
    assert(#[trigger] has_key(rv, seq![b1 as u8]) && 0 <= value_of(rv, seq![b1 as u8]) <= 255);
    assert(#[trigger] has_key(rv, seq![b2 as u8]) && 0 <= value_of(rv, seq![b2 as u8]) <= 255);
    assert(spec_shuffle(rv)[b1] == value_of(rv, seq![b1 as u8]) as u8);
    assert(spec_shuffle(rv)[b2] == value_of(rv, seq![b2 as u8]) as u8);
    let k1 = seq![b1 as u8];
    let k2 = seq![b2 as u8];
    assert(has_key(rv, k1) && has_key(rv, k2));
    lemma_key_index(rv, k1);
    lemma_key_index(rv, k2);
    let i1 = key_index(rv, k1);
    let i2 = key_index(rv, k2);
    assert(k1[0] != k2[0]);
    assert(rv[i1].0 == k1 && rv[i2].0 == k2);
    assert(i1 != i2);
    if i1 < i2 {
        assert(rv[i1].1 < rv[i2].1);
    } else {
        assert(rv[i2].1 < rv[i1].1);
    }
}

/// Bytes mapped through a permutation table.
pub open spec fn map_shuffle(s: Seq<u8>, b: Seq<u8>) -> Seq<u8> {
    b.map_values(|x: u8| s[x as int])
}

/// The encodings of the chunks after the byte shuffle, concatenated.
pub open spec fn spec_gpt4_encode_chunks(
    m: Seq<(Pair, Token)>,
    shuffle: Seq<u8>,
    cs: Seq<Seq<char>>,
) -> Seq<Token>
    decreases cs.len(),
{
    if cs.len() == 0 {
        Seq::empty()
    } else {
        spec_encode(m, byte_ids(map_shuffle(shuffle, vstd::utf8::encode_utf8(cs[0]))))
            + spec_gpt4_encode_chunks(m, shuffle, cs.drop_first())
    }
}

/// What encoding returns: the text split by the pattern, each chunk's
/// UTF-8 bytes shuffled and encoded, concatenated in match order.
pub open spec fn spec_gpt4_encode(
    m: Seq<(Pair, Token)>,
    shuffle: Seq<u8>,
    pattern: Seq<char>,
    text: Seq<char>,
) -> Option<Seq<Token>> {
    match split_of(pattern, text) {
        Some(cs) => Some(spec_gpt4_encode_chunks(m, shuffle, cs)),
        None => None,
    }
}

/// A tokenizer reconstructed from a foreign rank table: the recovered
/// merges, the derived vocabulary, the byte permutation and its inverse,
/// and the default special tokens. It cannot be trained, saved or loaded.
pub struct GPT4Tokenizer {
    pub pattern: String,
    pub special_tokens: Vec<(String, Token)>,
    pub merges: Vec<(Pair, Token)>,
    pub vocab: Vec<(Token, Vec<u8>)>,
    pub byte_shuffle: Vec<u8>,
    pub inverse_byte_shuffle: Vec<u8>,
}

impl GPT4Tokenizer {
    /// Well-formed state: the fixed split pattern compiles, merges are
    /// well-formed, the vocabulary is derived from the merges alone, the
    /// special tokens are well-formed and clear of the merge tokens, and
    /// the byte permutation and its inverse cancel.
    pub open spec fn wf(&self) -> bool {
        &&& regex_ok(self.pattern@)
        &&& self.pattern@ == gpt4_split_pattern_spec()
        &&& merges_wf(self.merges@)
        &&& specials_wf(specials_view(self.special_tokens@))
        &&& specials_disjoint(specials_view(self.special_tokens@), self.merges@)
        &&& vocab_view(self.vocab@) == spec_build_vocab(
            Seq::<(Seq<char>, Token)>::empty(),
            self.merges@,
        )
        &&& self.byte_shuffle@.len() == 256
        &&& self.inverse_byte_shuffle@.len() == 256
        &&& forall|b: int|
            0 <= b < 256 ==> self.inverse_byte_shuffle@[(#[trigger] self.byte_shuffle@[b])
                as int] == b as u8
    }

    /// Bootstraps a tokenizer from a foreign rank table: recovers the
    /// merges, builds the byte permutation from the single-byte ranks —
    /// which must fit a byte — derives the vocabulary, and installs the
    /// default special tokens, whose ids must be clear of the recovered
    /// merge tokens. Every inconsistency is a fatal `ConsistencyError`; a
    /// split pattern the regex engine rejects is `ConfigurationError`; no
    /// partial tokenizer is usable.
    #[verifier::loop_isolation(false)]
    pub fn new(ranks: &Vec<(Vec<u8>, Token)>) -> (r: Result<GPT4Tokenizer, TokenizerError>)
        requires
            ranks_wf(rank_view(ranks@)),
        ensures
            ({
                let rv = rank_view(ranks@);
                match spec_recover(rv) {
                    None => r == Result::<GPT4Tokenizer, TokenizerError>::Err(
                        TokenizerError::ConsistencyError,
                    ),
                    Some(m) => if !spec_shuffle_ok(rv) {
                        r == Result::<GPT4Tokenizer, TokenizerError>::Err(
                            TokenizerError::ConsistencyError,
                        )
                    } else if !specials_disjoint(gpt4_specials_spec(), m) {
                        r == Result::<GPT4Tokenizer, TokenizerError>::Err(
                            TokenizerError::ConsistencyError,
                        )
                    } else if !regex_ok(gpt4_split_pattern_spec()) {
                        r == Result::<GPT4Tokenizer, TokenizerError>::Err(
                            TokenizerError::ConfigurationError,
                        )
                    } else {
                        &&& r is Ok
                        &&& r.unwrap().wf()
                        &&& r.unwrap().merges@ == m
                        &&& r.unwrap().byte_shuffle@ == spec_shuffle(rv)
                        &&& specials_view(r.unwrap().special_tokens@) == gpt4_specials_spec()
                    },
                }
            }),
    {
        let ghost rv = rank_view(ranks@);
        let merges = match recover_merges(ranks) {
            Ok(m) => m,
            Err(_) => {
                return Err(TokenizerError::ConsistencyError);
            },
        };
        // The byte permutation from the single-byte ranks.
        let mut shuffle: Vec<u8> = Vec::new();
        let mut b: usize = 0;
        while b < 256
            invariant
                b <= 256,
                shuffle@.len() == b,
                forall|bb: int|
                    0 <= bb < b ==> #[trigger] has_key(rv, seq![bb as u8]) && 0 <= value_of(
                        rv,
                        seq![bb as u8],
                    ) <= 255 && shuffle@[bb] == value_of(rv, seq![bb as u8]) as u8,
            decreases 256 - b,
        {
            let mut one: Vec<u8> = Vec::new();
            one.push(b as u8);
            proof {
                assert(one@ =~= seq![b as u8]);
            }
            let rank = match find_bytes_index(ranks, &one) {
                Some(j) => {
                    proof {
                        assert(rv[j as int].1 == ranks@[j as int].1);
                    }
                    ranks[j].1
                },
                None => {
                    proof {
                        assert(!has_key(rv, seq![b as u8]));
                        assert(!spec_shuffle_ok(rv)) by {
                            if spec_shuffle_ok(rv) {
                                assert(#[trigger] has_key(rv, seq![b as u8]));
                            }
                        }
                    }
                    return Err(TokenizerError::ConsistencyError);
                },
            };
            proof {
                assert(value_of(rv, seq![b as u8]) == rank);
            }
            if rank < 0 || rank > 255 {
                proof {
                    let bi = b as int;
                    assert(bi as u8 == b as u8);
                    assert(seq![bi as u8] =~= seq![b as u8]);
                    assert(has_key(rv, seq![bi as u8]));
                    assert(value_of(rv, seq![bi as u8]) == rank);
                    assert(!spec_shuffle_ok(rv)) by {
                        if spec_shuffle_ok(rv) {
                            assert(#[trigger] has_key(rv, seq![bi as u8]) && 0 <= value_of(
                                rv,
                                seq![bi as u8],
                            ) <= 255);
                            assert(false);
                        }
                    }
                }
                return Err(TokenizerError::ConsistencyError);
            }
            let ghost old_shuffle = shuffle@;
            shuffle.push(rank as u8);
            proof {
                assert forall|bb: int|
                    0 <= bb < b + 1 implies #[trigger] has_key(rv, seq![bb as u8]) && 0
                    <= value_of(rv, seq![bb as u8]) <= 255 && shuffle@[bb] == value_of(
                    rv,
                    seq![bb as u8],
                ) as u8 by {
                    if bb < b {
                        assert(#[trigger] has_key(rv, seq![bb as u8]) && 0 <= value_of(
                            rv,
                            seq![bb as u8],
                        ) <= 255 && old_shuffle[bb] == value_of(rv, seq![bb as u8]) as u8);
                        assert(shuffle@[bb] == old_shuffle[bb]);
                    } else {
                        assert(seq![bb as u8] =~= seq![b as u8]);
                        assert(has_key(rv, seq![bb as u8]));
                        assert(value_of(rv, seq![bb as u8]) == rank);
                        assert(shuffle@[bb] == rank as u8);
                    }
                }
            }
            b += 1;
        }
        proof {
            assert forall|bq: int|
                0 <= bq < 256 implies #[trigger] has_key(rv, seq![bq as u8]) && 0 <= value_of(
                rv,
                seq![bq as u8],
            ) <= 255 by {}
            assert(spec_shuffle_ok(rv));
            assert forall|iq: int| 0 <= iq < 256 implies shuffle@[iq] == #[trigger] spec_shuffle(
                rv,
            )[iq] by {
                assert(#[trigger] has_key(rv, seq![iq as u8]) && 0 <= value_of(
                    rv,
                    seq![iq as u8],
                ) <= 255);
            }
            assert(shuffle@ =~= spec_shuffle(rv));
        }
        // The inverse permutation.
        let mut inverse: Vec<u8> = Vec::new();
        let mut z: usize = 0;
        while z < 256
            invariant
                z <= 256,
                inverse@.len() == z,
            decreases 256 - z,
        {
            inverse.push(0);
            z += 1;
        }
        let mut b2: usize = 0;
        while b2 < 256
            invariant
                b2 <= 256,
                inverse@.len() == 256,
                shuffle@ == spec_shuffle(rv),
                forall|bb: int|
                    0 <= bb < b2 ==> inverse@[(#[trigger] shuffle@[bb]) as int] == bb as u8,
            decreases 256 - b2,
        {
            let idx = shuffle[b2];
            inverse[idx as usize] = b2 as u8;
            proof {
                assert forall|bb: int|
                    0 <= bb < b2 + 1 implies inverse@[(#[trigger] shuffle@[bb]) as int] == bb
                    as u8 by {
                    if bb < b2 {
                        lemma_shuffle_injective(rv, bb, b2 as int);
                        assert(shuffle@[bb] != shuffle@[b2 as int]);
                    }
                }
            }
            b2 += 1;
        }
        // The default special tokens must be clear of the merge tokens.
        let specials = gpt4_special_tokens();
        let ns = specials.len();
        let mut s: usize = 0;
        while s < ns
            invariant
                s <= ns == specials@.len(),
                specials_view(specials@) == gpt4_specials_spec(),
                merges_wf(merges@),
                Some(merges@) == spec_recover(rv),
                forall|e: int, j: int|
                    0 <= e < s && 0 <= j < merges@.len() ==> (#[trigger] specials_view(
                        specials@,
                    )[e]).1 != (#[trigger] merges@[j]).1,
            decreases ns - s,
        {
            if has_merge_value(&merges, specials[s].1) {
                proof {
                    let j = choose|j: int|
                        0 <= j < merges@.len() && (#[trigger] merges@[j]).1 == specials@[s as int].1;
                    assert(!specials_disjoint(gpt4_specials_spec(), merges@)) by {
                        if specials_disjoint(gpt4_specials_spec(), merges@) {
                            assert((#[trigger] gpt4_specials_spec()[s as int]).1 != (
                            #[trigger] merges@[j]).1);
                        }
                    }
                }
                return Err(TokenizerError::ConsistencyError);
            }
            proof {
                assert(specials_view(specials@)[s as int].1 == specials@[s as int].1);
            }
            s += 1;
        }
        // The fixed split pattern must compile.
        let pattern = gpt4_split_pattern();
        if !regex_compiles(pattern.as_str()) {
            return Err(TokenizerError::ConfigurationError);
        }
        let none_specials: Vec<(String, Token)> = Vec::new();
        let vocab = build_vocab(&none_specials, &merges);
        proof {
            assert(specials_view(none_specials@) =~= Seq::<(Seq<char>, Token)>::empty());
        }
        Ok(
            GPT4Tokenizer {
                pattern,
                special_tokens: specials,
                merges,
                vocab,
                byte_shuffle: shuffle,
                inverse_byte_shuffle: inverse,
            },
        )
    }

    /// Encodes a text: fails with `PolicyViolationError` when any
    /// registered special token occurs in it; otherwise splits the text by
    /// the fixed pattern and encodes each chunk's shuffled bytes
    /// independently, concatenating in match order.
    #[verifier::loop_isolation(false)]
    pub fn encode(&self, text: &str) -> (r: Result<Vec<Token>, TokenizerError>)
        requires
            self.wf(),
        ensures
            ({
                let sp = specials_view(self.special_tokens@);
                if any_registered_occurs(sp, text@) {
                    r == Result::<Vec<Token>, TokenizerError>::Err(
                        TokenizerError::PolicyViolationError,
                    )
                } else {
                    match spec_gpt4_encode(
                        self.merges@,
                        self.byte_shuffle@,
                        self.pattern@,
                        text@,
                    ) {
                        Some(ids) => r is Ok && r.unwrap()@ == ids,
                        None => r == Result::<Vec<Token>, TokenizerError>::Err(
                            TokenizerError::ConfigurationError,
                        ),
                    }
                }
            }),
    {
        let ghost sp = specials_view(self.special_tokens@);
        let tchars = str_chars(text);
        let ns = self.special_tokens.len();
        let mut i: usize = 0;
        while i < ns
            invariant
                i <= ns,
                forall|j: int| 0 <= j < i ==> !occurs_in(text@, (#[trigger] sp[j]).0),
            decreases ns - i,
        {
            let tok_chars = str_chars(self.special_tokens[i].0.as_str());
            proof {
                assert(tok_chars@ == sp[i as int].0);
                assert(sp[i as int].0.len() > 0);
            }
            if contains_token(&tchars, &tok_chars) {
                proof {
                    assert(any_registered_occurs(sp, text@)) by {
                        assert(0 <= i < sp.len() && occurs_in(text@, (#[trigger] sp[i as int]).0));
                    }
                }
                return Err(TokenizerError::PolicyViolationError);
            }
            i += 1;
        }
        proof {
            assert(!any_registered_occurs(sp, text@));
        }
        let chunks = match regex_split(self.pattern.as_str(), text) {
            Some(cs) => cs,
            None => {
                return Err(TokenizerError::ConfigurationError);
            },
        };
        let ghost cs = split_of(self.pattern@, text@).unwrap();
        proof {
            assert(chunks.deep_view() == cs);
            assert(cs.skip(0) =~= cs);
        }
        let mut ids: Vec<Token> = Vec::new();
        let n = chunks.len();
        let mut c: usize = 0;
        while c < n
            invariant
                n == chunks@.len(),
                c <= n,
                spec_gpt4_encode_chunks(self.merges@, self.byte_shuffle@, cs) == ids@
                    + spec_gpt4_encode_chunks(
                    self.merges@,
                    self.byte_shuffle@,
                    cs.skip(c as int),
                ),
            decreases n - c,
        {
            let ghost pre = ids@;
            let bytes = chunks[c].as_str().as_bytes_vec();
            let nb = bytes.len();
            let mut shuffled: Vec<u8> = Vec::new();
            let mut x: usize = 0;
            while x < nb
                invariant
                    nb == bytes@.len(),
                    x <= nb,
                    shuffled@ == map_shuffle(self.byte_shuffle@, bytes@.take(x as int)),
                decreases nb - x,
            {
                shuffled.push(self.byte_shuffle[bytes[x] as usize]);
                proof {
                    assert(shuffled@ =~= map_shuffle(
                        self.byte_shuffle@,
                        bytes@.take(x as int + 1),
                    ));
                }
                x += 1;
            }
            proof {
                assert(bytes@.take(nb as int) =~= bytes@);
            }
            let chunk_tokens = bytes_to_ids(&shuffled);
            let mut chunk_ids = encode_ids(&self.merges, chunk_tokens);
            ids.append(&mut chunk_ids);
            proof {
                let rest = cs.skip(c as int);
                assert(rest[0] == chunks@[c as int]@);
                assert(rest.drop_first() =~= cs.skip(c as int + 1));
                assert(pre + (spec_encode(
                    self.merges@,
                    byte_ids(map_shuffle(self.byte_shuffle@, vstd::utf8::encode_utf8(rest[0]))),
                ) + spec_gpt4_encode_chunks(self.merges@, self.byte_shuffle@, rest.drop_first()))
                    =~= ids@ + spec_gpt4_encode_chunks(
                    self.merges@,
                    self.byte_shuffle@,
                    cs.skip(c as int + 1),
                ));
            }
            c += 1;
        }
        proof {
            assert(cs.skip(n as int) =~= Seq::<Seq<char>>::empty());
            assert(ids@ + Seq::<Token>::empty() =~= ids@);
        }
        Ok(ids)
    }

    /// Decodes a token sequence: each id's vocabulary bytes concatenated,
    /// the inverse byte permutation applied, and the result rendered as
    /// text with invalid UTF-8 replaced; an id with no vocabulary entry —
    /// special tokens included — is `UnknownTokenError`.
    pub fn decode(&self, ids: &Vec<Token>) -> (r: Result<String, TokenizerError>)
        requires
            self.wf(),
        ensures
            ({
                match spec_expand(vocab_view(self.vocab@), ids@) {
                    Some(b) => {
                        &&& r is Ok
                        &&& r.unwrap()@ == lossy_of(map_shuffle(self.inverse_byte_shuffle@, b))
                        &&& vstd::utf8::valid_utf8(map_shuffle(self.inverse_byte_shuffle@, b))
                            ==> r.unwrap()@ == vstd::utf8::decode_utf8(
                            map_shuffle(self.inverse_byte_shuffle@, b),
                        )
                    },
                    None => r == Result::<String, TokenizerError>::Err(
                        TokenizerError::UnknownTokenError,
                    ),
                }
            }),
    {
        let bytes = match expand_ids(&self.vocab, ids) {
            Some(b) => b,
            None => {
                return Err(TokenizerError::UnknownTokenError);
            },
        };
        let nb = bytes.len();
        let mut unshuffled: Vec<u8> = Vec::new();
        let mut x: usize = 0;
        while x < nb
            invariant
                self.wf(),
                nb == bytes@.len(),
                x <= nb,
                unshuffled@ == map_shuffle(self.inverse_byte_shuffle@, bytes@.take(x as int)),
            decreases nb - x,
        {
            unshuffled.push(self.inverse_byte_shuffle[bytes[x] as usize]);
            proof {
                assert(unshuffled@ =~= map_shuffle(
                    self.inverse_byte_shuffle@,
                    bytes@.take(x as int + 1),
                ));
            }
            x += 1;
        }
        proof {
            assert(bytes@.take(nb as int) =~= bytes@);
        }
        Ok(lossy_string(&unshuffled))
    }

    /// The registered special tokens, in registration order.
    pub fn special_tokens(&self) -> (r: &Vec<(String, Token)>)
        ensures
            r == &self.special_tokens,
    {
        &self.special_tokens
    }

    /// The recovered merge table, insertion order being priority order.
    pub fn merges(&self) -> (r: &Vec<(Pair, Token)>)
        ensures
            r == &self.merges,
    {
        &self.merges
    }

    /// The vocabulary derived from the recovered merges.
    pub fn vocab(&self) -> (r: &Vec<(Token, Vec<u8>)>)
        ensures
            r == &self.vocab,
    {
        &self.vocab
    }

    /// The special-token table inverted: each id with its token string.
    pub fn inverse_special_tokens(&self) -> (r: Vec<(Token, String)>)
        ensures
            r@.len() == self.special_tokens@.len(),
            forall|i: int|
                0 <= i < r@.len() ==> (#[trigger] r@[i]).0 == self.special_tokens@[i].1
                    && r@[i].1@ == self.special_tokens@[i].0@,
    {
        let n = self.special_tokens.len();
        let mut r: Vec<(Token, String)> = Vec::new();
        let mut i: usize = 0;
        while i < n
            invariant
                n == self.special_tokens@.len(),
                i <= n,
                r@.len() == i,
                forall|j: int|
                    0 <= j < i ==> (#[trigger] r@[j]).0 == self.special_tokens@[j].1 && r@[j].1@
                        == self.special_tokens@[j].0@,
            decreases n - i,
        {
            r.push((self.special_tokens[i].1, self.special_tokens[i].0.clone()));
            i += 1;
        }
        r
    }

    /// Registers additional special tokens, appending to the table. The
    /// combined table must stay well-formed and clear of the merge tokens;
    /// this mutation is not synchronized and belongs before concurrent
    /// reads begin.
    pub fn register_special_tokens_x(&mut self, tokens: &Vec<(String, Token)>)
        requires
            old(self).wf(),
            specials_wf(
                specials_view(old(self).special_tokens@) + specials_view(tokens@),
            ),
            specials_disjoint(specials_view(tokens@), old(self).merges@),
        ensures
            final(self).wf(),
            final(self).special_tokens@ == old(self).special_tokens@ + tokens@,
            final(self).merges@ == old(self).merges@,
            final(self).vocab@ == old(self).vocab@,
            final(self).byte_shuffle@ == old(self).byte_shuffle@,
            final(self).inverse_byte_shuffle@ == old(self).inverse_byte_shuffle@,
    {
        let ghost old_sp = self.special_tokens@;
        let n = tokens.len();
        let mut i: usize = 0;
        while i < n
            invariant
                n == tokens@.len(),
                i <= n,
                self.special_tokens@ == old_sp + tokens@.take(i as int),
                self.merges@ == old(self).merges@,
                self.vocab@ == old(self).vocab@,
                self.byte_shuffle@ == old(self).byte_shuffle@,
                self.inverse_byte_shuffle@ == old(self).inverse_byte_shuffle@,
                self.pattern@ == old(self).pattern@,
            decreases n - i,
        {
            let name = tokens[i].0.clone();
            let id = tokens[i].1;
            self.special_tokens.push((name, id));
            proof {
                assert(self.special_tokens@ =~= old_sp + tokens@.take(i as int + 1));
            }
            i += 1;
        }
        proof {
            assert(tokens@.take(n as int) =~= tokens@);
            let combined = specials_view(old_sp) + specials_view(tokens@);
            assert(specials_view(self.special_tokens@) =~= combined);
            assert(specials_disjoint(combined, self.merges@)) by {
                assert forall|e: int, j: int|
                    0 <= e < combined.len() && 0 <= j < self.merges@.len() implies (
                #[trigger] combined[e]).1 != (#[trigger] self.merges@[j]).1 by {
                    if e < old_sp.len() {
                        assert(combined[e] == specials_view(old_sp)[e]);
                        assert(specials_view(old_sp)[e].1 != self.merges@[j].1);
                    } else {
                        assert(combined[e] == specials_view(tokens@)[e - old_sp.len()]);
                        assert(specials_view(tokens@)[e - old_sp.len()].1 != self.merges@[j].1);
                    }
                }
            }
        }
    }
}

} // verus!
