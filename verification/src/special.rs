//! Special-token overlay: splits text around literal special-token
//! substrings per a caller-chosen policy, injecting their fixed ids, and
//! encoding the ordinary stretches between them with the chunked encoder.
//! Matching is leftmost-first: the earliest position wins, and of several
//! tokens matching there, the one registered first.

use vstd::prelude::*;

use crate::base::byte_ids;
use crate::base::count_token;
use crate::base::lemma_count_token_absent;
use crate::base::lemma_count_token_concat;
use crate::base::lemma_encode_tokens_ok;
use crate::base::output_token_ok;
use crate::base::spec_encode;
use crate::base::Pair;
use crate::base::Token;
use crate::base::TokenizerError;
use crate::regex::spec_encode_chunks;
use crate::regex::spec_encode_ordinary;
use crate::regex::specials_disjoint;
use crate::regex::split_of;
use crate::regex::specials_wf;

verus! {

/// How special tokens are treated during encoding.
pub enum AllowedSpecial {
    /// Every registered special token is recognized and encoded to its id.
    AllowAll,
    /// Special tokens are ignored and encoded as ordinary text.
    AllowNone,
    /// Fail when any registered special token occurs anywhere in the text.
    RejectIfPresent,
    /// Only the named special tokens are recognized; others are ordinary
    /// text.
    AllowSet(Vec<String>),
}

/// One piece of a special-token split: a stretch of ordinary text, or the
/// effective special token at the given table position.
pub enum Segment {
    Ordinary(Seq<char>),
    Special(int),
}

/// Whether `tok` occurs in `text` starting at position `pos`.
pub open spec fn match_at(text: Seq<char>, pos: int, tok: Seq<char>) -> bool {
    &&& 0 <= pos
    &&& pos + tok.len() <= text.len()
    &&& text.subrange(pos, pos + tok.len()) == tok
}

/// Whether `tok` occurs anywhere in `text`.
pub open spec fn occurs_in(text: Seq<char>, tok: Seq<char>) -> bool {
    exists|pos: int| #[trigger] match_at(text, pos, tok)
}

/// The names of an effective special-token table, in order.
pub open spec fn names_of(eff: Seq<(Seq<char>, Token)>) -> Seq<Seq<char>> {
    eff.map_values(|e: (Seq<char>, Token)| e.0)
}

/// The first name, from table position `k` on, matching at `pos`.
pub open spec fn tok_at(text: Seq<char>, names: Seq<Seq<char>>, pos: int, k: int) -> Option<int>
    decreases names.len() - k,
{
    if k < 0 || k >= names.len() {
        None
    } else if match_at(text, pos, names[k]) {
        Some(k)
    } else {
        tok_at(text, names, pos, k + 1)
    }
}

/// The leftmost match of any name at or after `pos`: the smallest
/// matching position, and there the earliest-registered name.
pub open spec fn match_from(text: Seq<char>, names: Seq<Seq<char>>, pos: int) -> Option<(int, int)>
    decreases text.len() - pos,
{
    if pos < 0 || pos >= text.len() {
        None
    } else {
        match tok_at(text, names, pos, 0) {
            Some(k) => Some((pos, k)),
            None => match_from(text, names, pos + 1),
        }
    }
}

/// What `tok_at` selects: the first table position at or after `k` whose
/// token matches at `pos`, or nothing when none does.
pub proof fn lemma_tok_at(text: Seq<char>, names: Seq<Seq<char>>, pos: int, k: int)
    requires
        0 <= k,
    ensures
        match tok_at(text, names, pos, k) {
            Some(kk) => k <= kk < names.len() && match_at(text, pos, names[kk]) && (forall|k2: int|
                k <= k2 < kk ==> !match_at(text, pos, #[trigger] names[k2])),
            None => forall|k2: int|
                k <= k2 < names.len() ==> !match_at(text, pos, #[trigger] names[k2]),
        },
    decreases names.len() - k,
{
    if k < names.len() && !match_at(text, pos, names[k]) {
        lemma_tok_at(text, names, pos, k + 1);
    }
}

/// What `match_from` selects: the leftmost matching position at or after
/// `pos` with its earliest matching token, or nothing when no token
/// matches anywhere at or after `pos`.
pub proof fn lemma_match_from(text: Seq<char>, names: Seq<Seq<char>>, pos: int)
    requires
        0 <= pos,
    ensures
        match match_from(text, names, pos) {
            Some(pk) => {
                &&& pos <= pk.0 < text.len()
                &&& 0 <= pk.1 < names.len()
                &&& match_at(text, pk.0, names[pk.1])
                &&& tok_at(text, names, pk.0, 0) == Some(pk.1)
                &&& forall|p2: int|
                    pos <= p2 < pk.0 ==> #[trigger] tok_at(text, names, p2, 0) is None
            },
            None => forall|p2: int|
                pos <= p2 < text.len() ==> #[trigger] tok_at(text, names, p2, 0) is None,
        },
    decreases text.len() - pos,
{
    if pos < text.len() {
        lemma_tok_at(text, names, pos, 0);
        if tok_at(text, names, pos, 0) is None {
            lemma_match_from(text, names, pos + 1);
        }
    }
}

/// The split of `text` around the effective special tokens: alternating
/// ordinary stretches and special-token matches, leftmost-first,
/// non-overlapping, covering the whole text; a trailing empty stretch is
/// dropped.
pub open spec fn spec_split_special(text: Seq<char>, names: Seq<Seq<char>>) -> Seq<Segment>
    decreases text.len(),
{
    match match_from(text, names, 0) {
        None => if text.len() > 0 {
            seq![Segment::Ordinary(text)]
        } else {
            Seq::empty()
        },
        Some(pk) => {
            let pos = pk.0;
            let toklen = names[pk.1].len();
            if 0 <= pos && 0 < toklen && pos + toklen <= text.len() {
                seq![Segment::Ordinary(text.take(pos)), Segment::Special(pk.1)]
                    + spec_split_special(text.skip(pos + toklen), names)
            } else {
                seq![Segment::Ordinary(text)]
            }
        },
    }
}

/// What the split's segments encode to: ordinary stretches through the
/// pattern-chunked encoder, special segments to their fixed id; nothing
/// when some ordinary stretch cannot be split by the pattern.
pub open spec fn spec_encode_segments(
    m: Seq<(Pair, Token)>,
    pattern: Seq<char>,
    eff: Seq<(Seq<char>, Token)>,
    segs: Seq<Segment>,
) -> Option<Seq<Token>>
    decreases segs.len(),
{
    if segs.len() == 0 {
        Some(Seq::empty())
    } else {
        let head = match segs[0] {
            Segment::Ordinary(s) => spec_encode_ordinary(m, pattern, s),
            Segment::Special(k) => if 0 <= k < eff.len() {
                Some(seq![eff[k].1])
            } else {
                None
            },
        };
        match (head, spec_encode_segments(m, pattern, eff, segs.drop_first())) {
            (Some(h), Some(t)) => Some(h + t),
            _ => None,
        }
    }
}

/// Encoding under an effective special-token set: with none, ordinary
/// encoding; else the encoded special-token split.
pub open spec fn spec_encode_with_specials(
    m: Seq<(Pair, Token)>,
    pattern: Seq<char>,
    eff: Seq<(Seq<char>, Token)>,
    text: Seq<char>,
) -> Option<Seq<Token>> {
    if eff.len() == 0 {
        spec_encode_ordinary(m, pattern, text)
    } else {
        spec_encode_segments(m, pattern, eff, spec_split_special(text, names_of(eff)))
    }
}

/// Whether `n` is one of `names`.
pub open spec fn contains_name(names: Seq<Seq<char>>, n: Seq<char>) -> bool {
    exists|i: int| 0 <= i < names.len() && #[trigger] names[i] == n
}

/// The registered special tokens whose names are in `names`, in
/// registration order.
pub open spec fn spec_filter_specials(
    sp: Seq<(Seq<char>, Token)>,
    names: Seq<Seq<char>>,
) -> Seq<(Seq<char>, Token)>
    decreases sp.len(),
{
    if sp.len() == 0 {
        Seq::empty()
    } else {
        let rest = spec_filter_specials(sp.drop_first(), names);
        if contains_name(names, sp[0].0) {
            seq![sp[0]] + rest
        } else {
            rest
        }
    }
}

/// Whether any registered special token occurs in the text.
pub open spec fn any_registered_occurs(sp: Seq<(Seq<char>, Token)>, text: Seq<char>) -> bool {
    exists|i: int| 0 <= i < sp.len() && occurs_in(text, (#[trigger] sp[i]).0)
}

/// What an encoding result must be, given the specified outcome: the
/// exact token sequence on success, `ConfigurationError` when the
/// specified split fails.
pub open spec fn encode_outcome(r: Result<Vec<Token>, TokenizerError>, o: Option<Seq<Token>>) -> bool {
    match o {
        Some(ids) => r is Ok && r.unwrap()@ == ids,
        None => r == Result::<Vec<Token>, TokenizerError>::Err(TokenizerError::ConfigurationError),
    }
}

/// The characters of a text, in order.
pub fn str_chars(s: &str) -> (r: Vec<char>)
    ensures
        r@ == s@,
{
    let n = s.unicode_len();
    let mut r: Vec<char> = Vec::new();
    let mut i: usize = 0;
    while i < n
        invariant
            n == s@.len(),
            i <= n,
            r@ == s@.take(i as int),
        decreases n - i,
    {
        r.push(s.get_char(i));
        proof {
            assert(r@ =~= s@.take(i as int + 1));
        }
        i += 1;
    }
    proof {
        assert(s@.take(n as int) =~= s@);
    }
    r
}

/// Whether `tok` occurs in the text starting at `pos`.
fn window_matches(tchars: &Vec<char>, pos: usize, tok: &Vec<char>) -> (r: bool)
    ensures
        r == match_at(tchars@, pos as int, tok@),
{
    let tl = tok.len();
    if tl > tchars.len() || pos > tchars.len() - tl {
        proof {
            assert(!match_at(tchars@, pos as int, tok@));
        }
        return false;
    }
    let mut j: usize = 0;
    while j < tl
        invariant
            tl == tok@.len(),
            pos + tl <= tchars@.len(),
            tchars@.len() <= usize::MAX,
            j <= tl,
            forall|j2: int| 0 <= j2 < j ==> tchars@[pos + j2] == tok@[j2],
        decreases tl - j,
    {
        if tchars[pos + j] != tok[j] {
            proof {
                assert(tchars@.subrange(pos as int, pos + tl) != tok@) by {
                    assert(tchars@.subrange(pos as int, pos + tl)[j as int] == tchars@[pos + j]);
                }
            }
            return false;
        }
        j += 1;
    }
    proof {
        assert(tchars@.subrange(pos as int, pos + tl) =~= tok@);
    }
    true
}

/// Whether `tok` occurs anywhere in the text.
pub(crate) fn contains_token(tchars: &Vec<char>, tok: &Vec<char>) -> (r: bool)
    requires
        tok@.len() > 0,
    ensures
        r == occurs_in(tchars@, tok@),
{
    let n = tchars.len();
    let mut pos: usize = 0;
    while pos < n
        invariant
            n == tchars@.len(),
            pos <= n,
            forall|p2: int| 0 <= p2 < pos ==> !match_at(tchars@, p2, tok@),
        decreases n - pos,
    {
        if window_matches(tchars, pos, tok) {
            return true;
        }
        pos += 1;
    }
    proof {
        assert forall|p2: int| !(#[trigger] match_at(tchars@, p2, tok@)) by {
            if 0 <= p2 && p2 + tok@.len() <= tchars@.len() {
                assert(p2 < n);
            }
        }
    }
    false
}

/// The leftmost special-token match in the text at or after `done`: its
/// absolute position and the table index of the earliest-registered token
/// matching there.
fn find_first_special(tchars: &Vec<char>, done: usize, eff_chars: &Vec<Vec<char>>) -> (r: Option<
    (usize, usize),
>)
    requires
        done <= tchars@.len(),
    ensures
        ({
            let suffix = tchars@.skip(done as int);
            let names = eff_chars.deep_view();
            match r {
                Some(pk) => done <= pk.0 && pk.1 < names.len() && match_from(suffix, names, 0)
                    == Some((pk.0 - done, pk.1 as int)),
                None => match_from(suffix, names, 0) is None,
            }
        }),
{
    let ghost suffix = tchars@.skip(done as int);
    let ghost names = eff_chars.deep_view();
    let tlen = tchars.len();
    let ne = eff_chars.len();
    proof {
        assert(names.len() == eff_chars@.len());
    }
    let mut pos: usize = done;
    while pos < tlen
        invariant
            done <= pos <= tlen == tchars@.len(),
            suffix == tchars@.skip(done as int),
            names == eff_chars.deep_view(),
            ne == eff_chars@.len(),
            ne == names.len(),
            match_from(suffix, names, 0) == match_from(suffix, names, pos - done),
        decreases tlen - pos,
    {
        let ghost rel = pos - done;
        let mut k: usize = 0;
        while k < ne
            invariant
                done <= pos < tlen == tchars@.len(),
                k <= ne == eff_chars@.len(),
                ne == names.len(),
                suffix == tchars@.skip(done as int),
                names == eff_chars.deep_view(),
                rel == pos - done,
                match_from(suffix, names, 0) == match_from(suffix, names, rel),
                tok_at(suffix, names, rel, 0) == tok_at(suffix, names, rel, k as int),
            decreases ne - k,
        {
            let ghost tokv = names[k as int];
            proof {
                assert(tokv =~= eff_chars@[k as int]@);
            }
            if window_matches(tchars, pos, &eff_chars[k]) {
                proof {
                    assert(match_at(tchars@, pos as int, tokv));
                    assert(rel + tokv.len() <= suffix.len());
                    assert(suffix.subrange(rel, rel + tokv.len()) =~= tchars@.subrange(
                        pos as int,
                        pos + tokv.len(),
                    ));
                    assert(match_at(suffix, rel, tokv));
                    assert(tok_at(suffix, names, rel, k as int) == Some(k as int));
                    assert(rel < suffix.len());
                    assert(match_from(suffix, names, rel) == Some((rel, k as int)));
                }
                return Some((pos, k));
            }
            proof {
                assert(!match_at(tchars@, pos as int, tokv));
                assert(!match_at(suffix, rel, tokv)) by {
                    if match_at(suffix, rel, tokv) {
                        assert(tchars@.subrange(pos as int, pos + tokv.len()) =~= suffix.subrange(
                            rel,
                            rel + tokv.len(),
                        ));
                    }
                }
                assert(tok_at(suffix, names, rel, k as int) == tok_at(
                    suffix,
                    names,
                    rel,
                    k as int + 1,
                ));
            }
            k += 1;
        }
        proof {
            assert(tok_at(suffix, names, rel, ne as int) is None);
            assert(rel < suffix.len());
            assert(match_from(suffix, names, rel) == match_from(suffix, names, rel + 1));
        }
        pos += 1;
    }
    proof {
        assert(suffix.len() == tlen - done);
        assert(match_from(suffix, names, (tlen - done) as int) is None);
    }
    None
}

impl crate::regex::RegexTokenizerStruct {
    /// Encodes `text` against an explicit effective special-token table:
    /// the text is split around leftmost-first literal matches of the
    /// effective names, special segments become their fixed ids, ordinary
    /// segments go through the pattern-chunked encoder.
    fn encode_with_effective(&self, text: &str, eff: &Vec<(String, Token)>) -> (r: Result<
        Vec<Token>,
        TokenizerError,
    >)
        requires
            self.wf(),
            forall|i: int| 0 <= i < eff@.len() ==> (#[trigger] eff@[i]).0@.len() > 0,
        ensures
            encode_outcome(
                r,
                spec_encode_with_specials(
                    self.merges@,
                    self.pattern@,
                    crate::base::specials_view(eff@),
                    text@,
                ),
            ),
    {
        let ghost m = self.merges@;
        let ghost pat = self.pattern@;
        let ghost effv = crate::base::specials_view(eff@);
        if eff.len() == 0 {
            return self.encode_ordinary(text);
        }
        let tchars = str_chars(text);
        let tlen = tchars.len();
        let ne = eff.len();
        let mut eff_chars: Vec<Vec<char>> = Vec::new();
        let mut t: usize = 0;
        while t < ne
            invariant
                t <= ne == eff@.len(),
                eff_chars@.len() == t,
                effv == crate::base::specials_view(eff@),
                forall|j: int| 0 <= j < t ==> (#[trigger] eff_chars@[j])@ == effv[j].0,
            decreases ne - t,
        {
            let cv = str_chars(eff[t].0.as_str());
            eff_chars.push(cv);
            t += 1;
        }
        let ghost names = names_of(effv);
        proof {
            assert forall|j: int| 0 <= j < ne implies eff_chars.deep_view()[j] == #[trigger] names[j] by {
                assert(eff_chars.deep_view()[j] =~= eff_chars@[j]@);
                assert(names[j] == effv[j].0);
            }
            assert(eff_chars.deep_view() =~= names);
            assert forall|i: int| 0 <= i < names.len() implies (#[trigger] names[i]).len() > 0 by {
                assert(names[i] == effv[i].0);
                assert(effv[i].0 == eff@[i].0@);
            }
        }
        let ghost full = spec_encode_segments(m, pat, effv, spec_split_special(tchars@, names));
        let mut ids: Vec<Token> = Vec::new();
        let mut done: usize = 0;
        proof {
            assert(tchars@.skip(0) =~= tchars@);
        }
        loop
            invariant
                self.wf(),
                m == self.merges@,
                pat == self.pattern@,
                effv == crate::base::specials_view(eff@),
                names == names_of(effv),
                eff_chars.deep_view() == names,
                ne == eff@.len(),
                ne == eff_chars@.len(),
                ne >= 1,
                ne == names.len(),
                forall|i: int| 0 <= i < names.len() ==> (#[trigger] names[i]).len() > 0,
                tlen == tchars@.len(),
                tchars@ == text@,
                done <= tlen,
                full == spec_encode_segments(m, pat, effv, spec_split_special(tchars@, names)),
                match spec_encode_segments(
                    m,
                    pat,
                    effv,
                    spec_split_special(tchars@.skip(done as int), names),
                ) {
                    Some(tail) => full == Some(ids@ + tail),
                    None => full is None,
                },
            decreases tlen - done,
        {
            let ghost suffix = tchars@.skip(done as int);
            let ghost segs = spec_split_special(suffix, names);
            match find_first_special(&tchars, done, &eff_chars) {
                None => {
                    proof {
                        assert(match_from(suffix, names, 0) is None);
                    }
                    if done == tlen {
                        proof {
                            assert(suffix.len() == 0);
                            assert(segs =~= Seq::<Segment>::empty());
                            assert(spec_encode_segments(m, pat, effv, segs) == Some(
                                Seq::<Token>::empty(),
                            ));
                            assert(ids@ + Seq::<Token>::empty() =~= ids@);
                        }
                        return Ok(ids);
                    }
                    let rest = text.substring_char(done, tlen);
                    proof {
                        assert(rest@ == text@.subrange(done as int, tlen as int));
                        assert(rest@ =~= suffix);
                        assert(segs == seq![Segment::Ordinary(suffix)]);
                        assert(segs[0] == Segment::Ordinary(suffix));
                        assert(segs.drop_first() =~= Seq::<Segment>::empty());
                    }
                    match self.encode_ordinary(rest) {
                        Ok(mut rids) => {
                            proof {
                                let h = spec_encode_ordinary(m, pat, suffix).unwrap();
                                assert(spec_encode_segments(
                                    m,
                                    pat,
                                    effv,
                                    Seq::<Segment>::empty(),
                                ) == Some(Seq::<Token>::empty()));
                                assert(spec_encode_segments(m, pat, effv, segs) == Some(
                                    h + Seq::<Token>::empty(),
                                ));
                                assert(h + Seq::<Token>::empty() =~= h);
                                assert(ids@ + rids@ =~= ids@ + h);
                            }
                            ids.append(&mut rids);
                            return Ok(ids);
                        },
                        Err(_) => {
                            proof {
                                assert(spec_encode_ordinary(m, pat, suffix) is None);
                                assert(spec_encode_segments(m, pat, effv, segs) is None);
                            }
                            return Err(TokenizerError::ConfigurationError);
                        },
                    }
                },
                Some(pk) => {
                    let pos = pk.0;
                    let k = pk.1;
                    let ghost rel = pos - done;
                    let ghost tokv = names[k as int];
                    proof {
                        lemma_match_from(suffix, names, 0);
                        assert(match_from(suffix, names, 0) == Some((rel, k as int)));
                        assert(match_at(suffix, rel, tokv));
                        assert(0 < tokv.len());
                        assert(rel + tokv.len() <= suffix.len());
                        assert(segs == seq![
                            Segment::Ordinary(suffix.take(rel)),
                            Segment::Special(k as int),
                        ] + spec_split_special(suffix.skip(rel + tokv.len()), names));
                    }
                    let pre = text.substring_char(done, pos);
                    proof {
                        assert(pre@ == text@.subrange(done as int, pos as int));
                        assert(pre@ =~= suffix.take(rel));
                        assert(segs[0] == Segment::Ordinary(suffix.take(rel)));
                        assert(segs.drop_first() =~= seq![Segment::Special(k as int)]
                            + spec_split_special(suffix.skip(rel + tokv.len()), names));
                    }
                    match self.encode_ordinary(pre) {
                        Err(_) => {
                            proof {
                                assert(spec_encode_ordinary(m, pat, suffix.take(rel)) is None);
                                assert(spec_encode_segments(m, pat, effv, segs) is None);
                            }
                            return Err(TokenizerError::ConfigurationError);
                        },
                        Ok(mut pre_ids) => {
                            let ghost segs1 = segs.drop_first();
                            let ghost rest_segs = spec_split_special(
                                suffix.skip(rel + tokv.len()),
                                names,
                            );
                            proof {
                                assert(segs1[0] == Segment::Special(k as int));
                                assert(segs1.drop_first() =~= rest_segs);
                                assert(effv[k as int].1 == eff@[k as int].1);
                            }
                            let ghost pre_haul = ids@;
                            ids.append(&mut pre_ids);
                            ids.push(eff[k].1);
                            let toklen = eff_chars[k].len();
                            proof {
                                assert(eff_chars@[k as int]@ == tokv);
                                assert(toklen == tokv.len());
                                assert(suffix.skip(rel + tokv.len()) =~= tchars@.skip(
                                    pos + toklen,
                                ));
                                let h = spec_encode_ordinary(m, pat, suffix.take(rel)).unwrap();
                                match spec_encode_segments(m, pat, effv, rest_segs) {
                                    Some(t2) => {
                                        assert(spec_encode_segments(m, pat, effv, segs1) == Some(
                                            seq![effv[k as int].1] + t2,
                                        ));
                                        assert(spec_encode_segments(m, pat, effv, segs) == Some(
                                            h + (seq![effv[k as int].1] + t2),
                                        ));
                                        assert(full == Some(
                                            pre_haul + (h + (seq![effv[k as int].1] + t2)),
                                        ));
                                        assert(pre_haul + (h + (seq![effv[k as int].1] + t2))
                                            =~= ids@ + t2);
                                    },
                                    None => {
                                        assert(spec_encode_segments(m, pat, effv, segs1) is None);
                                        assert(spec_encode_segments(m, pat, effv, segs) is None);
                                    },
                                }
                            }
                            done = pos + toklen;
                        },
                    }
                },
            }
        }
    }

    /// Encodes `text`, handling special tokens per the policy: all
    /// registered tokens, none, rejection of any registered occurrence
    /// with `PolicyViolationError` before any encoding, or a caller-named
    /// subset. Recognized special-token occurrences become their fixed
    /// ids, leftmost-first and non-overlapping; everything else goes
    /// through the pattern-chunked encoder.
    pub fn encode_special(&self, text: &str, allowed_special: AllowedSpecial) -> (r: Result<
        Vec<Token>,
        TokenizerError,
    >)
        requires
            self.wf(),
        ensures
            ({
                let sp = crate::base::specials_view(self.special_tokens@);
                let m = self.merges@;
                let pat = self.pattern@;
                match allowed_special {
                    AllowedSpecial::AllowAll => encode_outcome(
                        r,
                        spec_encode_with_specials(m, pat, sp, text@),
                    ),
                    AllowedSpecial::AllowNone => encode_outcome(
                        r,
                        spec_encode_ordinary(m, pat, text@),
                    ),
                    AllowedSpecial::RejectIfPresent => if any_registered_occurs(sp, text@) {
                        r == Result::<Vec<Token>, TokenizerError>::Err(
                            TokenizerError::PolicyViolationError,
                        )
                    } else {
                        encode_outcome(r, spec_encode_ordinary(m, pat, text@))
                    },
                    AllowedSpecial::AllowSet(names) => encode_outcome(
                        r,
                        spec_encode_with_specials(
                            m,
                            pat,
                            spec_filter_specials(sp, names.deep_view()),
                            text@,
                        ),
                    ),
                }
            }),
    {
        let ghost sp = crate::base::specials_view(self.special_tokens@);
        let ns = self.special_tokens.len();
        match &allowed_special {
            AllowedSpecial::AllowNone => self.encode_ordinary(text),
            AllowedSpecial::RejectIfPresent => {
                let tchars = str_chars(text);
                let mut i: usize = 0;
                while i < ns
                    invariant
                        self.wf(),
                        allowed_special is RejectIfPresent,
                        sp == crate::base::specials_view(self.special_tokens@),
                        ns == self.special_tokens@.len(),
                        i <= ns,
                        tchars@ == text@,
                        forall|j: int| 0 <= j < i ==> !occurs_in(text@, (#[trigger] sp[j]).0),
                    decreases ns - i,
                {
                    let tok_chars = str_chars(self.special_tokens[i].0.as_str());
                    proof {
                        assert(tok_chars@ == sp[i as int].0);
                        assert(sp[i as int].0.len() > 0);
                    }
                    if contains_token(&tchars, &tok_chars) {
                        proof {
                            assert(occurs_in(text@, sp[i as int].0));
                            assert(any_registered_occurs(sp, text@)) by {
                                assert(0 <= i < sp.len() && occurs_in(
                                    text@,
                                    (#[trigger] sp[i as int]).0,
                                ));
                            }
                        }
                        return Err(TokenizerError::PolicyViolationError);
                    }
                    i += 1;
                }
                proof {
                    assert(!any_registered_occurs(sp, text@));
                }
                self.encode_ordinary(text)
            },
            AllowedSpecial::AllowAll => {
                let mut eff: Vec<(String, Token)> = Vec::new();
                let mut i: usize = 0;
                while i < ns
                    invariant
                        self.wf(),
                        sp == crate::base::specials_view(self.special_tokens@),
                        ns == self.special_tokens@.len(),
                        i <= ns,
                        crate::base::specials_view(eff@) == sp.take(i as int),
                    decreases ns - i,
                {
                    let name = self.special_tokens[i].0.clone();
                    let id = self.special_tokens[i].1;
                    let ghost pre_effv = crate::base::specials_view(eff@);
                    eff.push((name, id));
                    proof {
                        assert(crate::base::specials_view(eff@) =~= pre_effv.push(sp[i as int]));
                        assert(crate::base::specials_view(eff@) =~= sp.take(i as int + 1));
                    }
                    i += 1;
                }
                proof {
                    assert(sp.take(ns as int) =~= sp);
                    assert forall|i2: int| 0 <= i2 < eff@.len() implies (#[trigger] eff@[i2]).0@.len()
                        > 0 by {
                        assert(crate::base::specials_view(eff@)[i2].0 == eff@[i2].0@);
                        assert(sp[i2].0.len() > 0);
                    }
                }
                self.encode_with_effective(text, &eff)
            },
            AllowedSpecial::AllowSet(set_names) => {
                let ghost nv = set_names.deep_view();
                proof {
                    assert(allowed_special == AllowedSpecial::AllowSet(*set_names));
                }
                let nn = set_names.len();
                let mut eff: Vec<(String, Token)> = Vec::new();
                let mut i: usize = 0;
                proof {
                    assert(sp.skip(0) =~= sp);
                }
                while i < ns
                    invariant
                        self.wf(),
                        sp == crate::base::specials_view(self.special_tokens@),
                        ns == self.special_tokens@.len(),
                        nn == set_names@.len(),
                        nv == set_names.deep_view(),
                        i <= ns,
                        spec_filter_specials(sp, nv) == crate::base::specials_view(eff@)
                            + spec_filter_specials(sp.skip(i as int), nv),
                        forall|i2: int| 0 <= i2 < eff@.len() ==> (#[trigger] eff@[i2]).0@.len() > 0,
                    decreases ns - i,
                {
                    let ghost rest = sp.skip(i as int);
                    let ghost pre_eff = crate::base::specials_view(eff@);
                    proof {
                        assert(rest[0] == sp[i as int]);
                        assert(rest.drop_first() =~= sp.skip(i as int + 1));
                    }
                    // Is this registered token named in the allowed set?
                    let mut found = false;
                    let mut j: usize = 0;
                    while j < nn
                        invariant
                            j <= nn == set_names@.len(),
                            nv == set_names.deep_view(),
                            ns == self.special_tokens@.len(),
                            sp == crate::base::specials_view(self.special_tokens@),
                            i < ns,
                            found ==> contains_name(nv, sp[i as int].0),
                            !found ==> forall|j2: int| 0 <= j2 < j ==> #[trigger] nv[j2] != sp[i as int].0,
                        decreases nn - j,
                    {
                        if !found {
                            if self.special_tokens[i].0.eq(&set_names[j]) {
                                found = true;
                                proof {
                                    assert(nv[j as int] =~= set_names@[j as int]@);
                                    assert(nv[j as int] == sp[i as int].0);
                                }
                            } else {
                                proof {
                                    assert(nv[j as int] =~= set_names@[j as int]@);
                                }
                            }
                        }
                        j += 1;
                    }
                    if found {
                        let name = self.special_tokens[i].0.clone();
                        let id = self.special_tokens[i].1;
                        eff.push((name, id));
                        proof {
                            assert(sp[i as int].0.len() > 0);
                            assert(crate::base::specials_view(eff@) =~= pre_eff.push(
                                sp[i as int],
                            ));
                            assert(spec_filter_specials(rest, nv) == seq![sp[i as int]]
                                + spec_filter_specials(sp.skip(i as int + 1), nv));
                            assert(pre_eff + (seq![sp[i as int]] + spec_filter_specials(
                                sp.skip(i as int + 1),
                                nv,
                            )) =~= crate::base::specials_view(eff@) + spec_filter_specials(
                                sp.skip(i as int + 1),
                                nv,
                            ));
                        }
                    } else {
                        proof {
                            assert(!contains_name(nv, sp[i as int].0));
                            assert(spec_filter_specials(rest, nv) == spec_filter_specials(
                                sp.skip(i as int + 1),
                                nv,
                            ));
                        }
                    }
                    i += 1;
                }
                proof {
                    assert(sp.skip(ns as int) =~= Seq::<(Seq<char>, Token)>::empty());
                    assert(spec_filter_specials(Seq::<(Seq<char>, Token)>::empty(), nv)
                        == Seq::<(Seq<char>, Token)>::empty());
                    assert(crate::base::specials_view(eff@) + Seq::<(Seq<char>, Token)>::empty()
                        =~= crate::base::specials_view(eff@));
                }
                self.encode_with_effective(text, &eff)
            },
        }
    }

    /// Encodes `text`, failing with `PolicyViolationError` when any
    /// registered special token occurs in it — the default policy.
    pub fn encode(&self, text: &str) -> (r: Result<Vec<Token>, TokenizerError>)
        requires
            self.wf(),
        ensures
            ({
                let sp = crate::base::specials_view(self.special_tokens@);
                if any_registered_occurs(sp, text@) {
                    r == Result::<Vec<Token>, TokenizerError>::Err(
                        TokenizerError::PolicyViolationError,
                    )
                } else {
                    encode_outcome(r, spec_encode_ordinary(self.merges@, self.pattern@, text@))
                }
            }),
    {
        self.encode_special(text, AllowedSpecial::RejectIfPresent)
    }
}

// ---------------------------------------------------------------------------
// Policy semantics.
// ---------------------------------------------------------------------------

/// Ordinary chunk encoding emits only raw byte and merge tokens, so a
/// token the table cannot emit never appears in it.
proof fn lemma_chunks_never_emit(m: Seq<(Pair, Token)>, cs: Seq<Seq<char>>, sid: Token)
    requires
        !output_token_ok(m, sid),
    ensures
        forall|x: int|
            0 <= x < spec_encode_chunks(m, cs).len() ==> (#[trigger] spec_encode_chunks(m, cs)[x])
                != sid,
        count_token(spec_encode_chunks(m, cs), sid) == 0,
    decreases cs.len(),
{
    let res = spec_encode_chunks(m, cs);
    if cs.len() == 0 {
        assert(count_token(res, sid) == 0);
    } else {
        let bids = byte_ids(vstd::utf8::encode_utf8(cs[0]));
        let head = spec_encode(m, bids);
        assert forall|x: int| 0 <= x < bids.len() implies output_token_ok(m, #[trigger] bids[x]) by {
            assert(bids[x] == vstd::utf8::encode_utf8(cs[0])[x] as Token);
        }
        lemma_encode_tokens_ok(m, bids);
        assert forall|x: int| 0 <= x < head.len() implies (#[trigger] head[x]) != sid by {
            assert(output_token_ok(m, head[x]));
        }
        lemma_count_token_absent(head, sid);
        lemma_chunks_never_emit(m, cs.drop_first(), sid);
        lemma_count_token_concat(head, spec_encode_chunks(m, cs.drop_first()), sid);
        assert forall|x: int| 0 <= x < res.len() implies (#[trigger] res[x]) != sid by {
            if x < head.len() {
                assert(res[x] == head[x]);
            } else {
                assert(res[x] == spec_encode_chunks(m, cs.drop_first())[x - head.len()]);
            }
        }
    }
}

/// Ignoring special tokens keeps them out: ordinary encoding of any text
/// never contains the id of a registered special token — so under the
/// all-ignoring policy a special-token id is never embedded.
pub proof fn lemma_policy_none_excludes_special(
    m: Seq<(Pair, Token)>,
    pattern: Seq<char>,
    sp: Seq<(Seq<char>, Token)>,
    text: Seq<char>,
    i: int,
)
    requires
        specials_wf(sp),
        specials_disjoint(sp, m),
        0 <= i < sp.len(),
    ensures
        match spec_encode_ordinary(m, pattern, text) {
            Some(ids) => count_token(ids, sp[i].1) == 0 && (forall|x: int|
                0 <= x < ids.len() ==> (#[trigger] ids[x]) != sp[i].1),
            None => true,
        },
{
    assert(!output_token_ok(m, sp[i].1)) by {
        assert(sp[i].1 >= 256);
        if exists|j: int| 0 <= j < m.len() && (#[trigger] m[j]).1 == sp[i].1 {
            let j = choose|j: int| 0 <= j < m.len() && (#[trigger] m[j]).1 == sp[i].1;
            assert((#[trigger] sp[i]).1 != (#[trigger] m[j]).1);
        }
    }
    match split_of(pattern, text) {
        Some(cs) => {
            lemma_chunks_never_emit(m, cs, sp[i].1);
        },
        None => {
        },
    }
}

/// How many segments of a split carry the effective token at position
/// `k`.
pub open spec fn count_special_segs(segs: Seq<Segment>, k: int) -> int
    decreases segs.len(),
{
    if segs.len() == 0 {
        0
    } else {
        (if segs[0] == Segment::Special(k) {
            1int
        } else {
            0int
        }) + count_special_segs(segs.drop_first(), k)
    }
}

/// What the encoded segments count for one effective token: its id occurs
/// exactly once per segment that carries it — ordinary segments and other
/// special tokens never contribute it.
proof fn lemma_segments_special_count(
    m: Seq<(Pair, Token)>,
    pattern: Seq<char>,
    eff: Seq<(Seq<char>, Token)>,
    segs: Seq<Segment>,
    k: int,
)
    requires
        0 <= k < eff.len(),
        !output_token_ok(m, eff[k].1),
        forall|k2: int| 0 <= k2 < eff.len() && k2 != k ==> (#[trigger] eff[k2]).1 != eff[k].1,
    ensures
        match spec_encode_segments(m, pattern, eff, segs) {
            Some(ids) => count_token(ids, eff[k].1) == count_special_segs(segs, k),
            None => true,
        },
    decreases segs.len(),
{
    let sid = eff[k].1;
    if segs.len() > 0 {
        lemma_segments_special_count(m, pattern, eff, segs.drop_first(), k);
        match spec_encode_segments(m, pattern, eff, segs) {
            Some(ids) => {
                let tail = spec_encode_segments(m, pattern, eff, segs.drop_first()).unwrap();
                match segs[0] {
                    Segment::Ordinary(st) => {
                        let h = spec_encode_ordinary(m, pattern, st).unwrap();
                        match split_of(pattern, st) {
                            Some(cs) => {
                                lemma_chunks_never_emit(m, cs, sid);
                            },
                            None => {
                            },
                        }
                        lemma_count_token_concat(h, tail, sid);
                        assert(segs[0] != Segment::Special(k));
                    },
                    Segment::Special(kk) => {
                        assert(0 <= kk < eff.len());
                        let h = seq![eff[kk].1];
                        lemma_count_token_concat(h, tail, sid);
                        assert(h.drop_first() =~= Seq::<Token>::empty());
                        assert(count_token(Seq::<Token>::empty(), sid) == 0);
                        if kk == k {
                            assert(count_token(h, sid) == 1);
                            assert(segs[0] == Segment::Special(k));
                        } else {
                            assert((#[trigger] eff[kk]).1 != eff[k].1);
                            assert(count_token(h, sid) == 0);
                            assert(segs[0] != Segment::Special(k));
                        }
                    },
                }
            },
            None => {
            },
        }
    }
}

/// Recognizing special tokens embeds them: under an effective table whose
/// ids are distinct and clear of the merge tokens, the id of each
/// effective token occurs in the output exactly once per split segment
/// that matched it — once per literal leftmost non-overlapping occurrence.
pub proof fn lemma_policy_embeds_special(
    m: Seq<(Pair, Token)>,
    pattern: Seq<char>,
    eff: Seq<(Seq<char>, Token)>,
    text: Seq<char>,
    k: int,
)
    requires
        specials_wf(eff),
        specials_disjoint(eff, m),
        0 <= k < eff.len(),
    ensures
        match spec_encode_with_specials(m, pattern, eff, text) {
            Some(ids) => count_token(ids, eff[k].1) == count_special_segs(
                spec_split_special(text, names_of(eff)),
                k,
            ),
            None => true,
        },
{
    assert(!output_token_ok(m, eff[k].1)) by {
        assert(eff[k].1 >= 256);
        if exists|j: int| 0 <= j < m.len() && (#[trigger] m[j]).1 == eff[k].1 {
            let j = choose|j: int| 0 <= j < m.len() && (#[trigger] m[j]).1 == eff[k].1;
            assert((#[trigger] eff[k]).1 != (#[trigger] m[j]).1);
        }
    }
    assert forall|k2: int|
        0 <= k2 < eff.len() && k2 != k implies (#[trigger] eff[k2]).1 != eff[k].1 by {
        if k2 < k {
            assert((#[trigger] eff[k2]).1 != (#[trigger] eff[k]).1);
        } else {
            assert((#[trigger] eff[k]).1 != (#[trigger] eff[k2]).1);
        }
    }
    lemma_segments_special_count(
        m,
        pattern,
        eff,
        spec_split_special(text, names_of(eff)),
        k,
    );
}

} // verus!
