//! Regex-driven chunking tokenizer: text is split into chunks by a
//! configurable Unicode pattern, each chunk is encoded independently, and
//! the results are concatenated in match order, so merges never cross
//! pattern-defined boundaries. Special tokens are overlaid per policy.

use vstd::prelude::*;

use crate::base::build_vocab;
use crate::base::lemma_encode_expand_round_trip;
use crate::base::lemma_expand_concat;
use crate::base::byte_ids;
use crate::base::bytes_to_ids;
use crate::base::chunks_tokens_valid;
use crate::base::chunks_view;
use crate::base::encode_ids;
use crate::base::lossy_of;
use crate::base::lossy_string;
use crate::base::merges_wf;
use crate::base::spec_build_vocab;
use crate::base::spec_encode;
use crate::base::spec_expand;
use crate::base::spec_train;
use crate::base::specials_view;
use crate::base::train_merges;
use crate::base::vocab_view;
use crate::base::Pair;
use crate::base::Token;
use crate::base::TokenizerError;
use crate::basic::expand_ids;
use vstd::string::StrSliceExecFns;
use vstd::string::StringExecFns;

verus! {

/// The GPT-2 text split pattern.
pub fn gpt2_split_pattern() -> (r: String)
    ensures
        r@ == gpt2_split_pattern_spec(),
{
    String::from_str(r"'(?:[sdmt]|ll|ve|re)| ?\p{L}+| ?\p{N}+| ?[^\s\p{L}\p{N}]+|\s+(?!\S)|\s+")
}

/// The characters of the GPT-2 split pattern.
pub open spec fn gpt2_split_pattern_spec() -> Seq<char> {
    r"'(?:[sdmt]|ll|ve|re)| ?\p{L}+| ?\p{N}+| ?[^\s\p{L}\p{N}]+|\s+(?!\S)|\s+"@
}

/// The GPT-4 text split pattern.
pub fn gpt4_split_pattern() -> (r: String)
    ensures
        r@ == gpt4_split_pattern_spec(),
{
    String::from_str(
        r"'(?i:[sdmt]|ll|ve|re)|[^\r\n\p{L}\p{N}]?+\p{L}+|\p{N}{1,3}| ?[^\s\p{L}\p{N}]++[\r\n]*|\s*[\r\n]|\s+(?!\S)|\s+",
    )
}

/// The characters of the GPT-4 split pattern.
pub open spec fn gpt4_split_pattern_spec() -> Seq<char> {
    r"'(?i:[sdmt]|ll|ve|re)|[^\r\n\p{L}\p{N}]?+\p{L}+|\p{N}{1,3}| ?[^\s\p{L}\p{N}]++[\r\n]*|\s*[\r\n]|\s+(?!\S)|\s+"@
}

/// Whether a pattern parses and compiles as a regular expression; a
/// function of the pattern text alone.
pub uninterp spec fn regex_ok(pattern: Seq<char>) -> bool;

/// The successive non-overlapping matches of a pattern in a text, in
/// order; a function of pattern and text alone. Nothing when the pattern
/// does not compile or the engine gives up on this input.
pub uninterp spec fn split_of(pattern: Seq<char>, text: Seq<char>) -> Option<Seq<Seq<char>>>;

/// Relies on `fancy_regex::Regex::new`: whether a pattern compiles is a
/// function of the pattern text alone.
#[verifier::external_body]
pub(crate) fn regex_compiles(pattern: &str) -> (r: bool)
    ensures
        r == regex_ok(pattern@),
{
    fancy_regex::Regex::new(pattern).is_ok()
}

/// Relies on `fancy_regex::Regex::new` and `Regex::find_iter`: the
/// successive non-overlapping matches of the compiled pattern in the text,
/// in match order, each returned as its own string; matching is a function
/// of pattern and text alone.
#[verifier::external_body]
pub(crate) fn regex_split(pattern: &str, text: &str) -> (r: Option<Vec<String>>)
    ensures
        r is Some <==> (regex_ok(pattern@) && split_of(pattern@, text@) is Some),
        r is Some ==> r.unwrap().deep_view() == split_of(pattern@, text@).unwrap(),
{
    let re = fancy_regex::Regex::new(pattern).ok()?;
    let mut chunks: Vec<String> = Vec::new();
    for m in re.find_iter(text) {
        chunks.push(m.ok()?.as_str().to_string());
    }
    Some(chunks)
}

/// The UTF-8 bytes of a list of chunks, concatenated in order.
pub open spec fn spec_chunk_bytes(chunks: Seq<Seq<char>>) -> Seq<u8>
    decreases chunks.len(),
{
    if chunks.len() == 0 {
        Seq::empty()
    } else {
        vstd::utf8::encode_utf8(chunks[0]) + spec_chunk_bytes(chunks.drop_first())
    }
}

/// The encodings of a list of chunks, concatenated in order.
pub open spec fn spec_encode_chunks(m: Seq<(Pair, Token)>, chunks: Seq<Seq<char>>) -> Seq<Token>
    decreases chunks.len(),
{
    if chunks.len() == 0 {
        Seq::empty()
    } else {
        spec_encode(m, byte_ids(vstd::utf8::encode_utf8(chunks[0]))) + spec_encode_chunks(
            m,
            chunks.drop_first(),
        )
    }
}

/// What ordinary encoding returns: the text split by the pattern, each
/// chunk encoded from its UTF-8 bytes, concatenated in match order;
/// nothing when the split fails.
pub open spec fn spec_encode_ordinary(
    m: Seq<(Pair, Token)>,
    pattern: Seq<char>,
    text: Seq<char>,
) -> Option<Seq<Token>> {
    match split_of(pattern, text) {
        Some(cs) => Some(spec_encode_chunks(m, cs)),
        None => None,
    }
}

/// Registered special tokens: names nonempty and pairwise distinct, ids
/// pairwise distinct and outside the raw byte range.
pub open spec fn specials_wf(sp: Seq<(Seq<char>, Token)>) -> bool {
    &&& forall|i: int| 0 <= i < sp.len() ==> (#[trigger] sp[i]).0.len() > 0 && sp[i].1 >= 256
    &&& forall|i: int, j: int|
        0 <= i < j < sp.len() ==> (#[trigger] sp[i]).0 != (#[trigger] sp[j]).0 && sp[i].1
            != sp[j].1
}

/// Special-token ids never collide with merge tokens.
pub open spec fn specials_disjoint(sp: Seq<(Seq<char>, Token)>, m: Seq<(Pair, Token)>) -> bool {
    forall|i: int, j: int| 0 <= i < sp.len() && 0 <= j < m.len() ==> (#[trigger] sp[i]).1 != (
    #[trigger] m[j]).1
}

/// Byte-pair-encoding tokenizer with a regex split pattern and an
/// optional special-token overlay.
pub struct RegexTokenizerStruct {
    pub pattern: String,
    pub special_tokens: Vec<(String, Token)>,
    pub merges: Vec<(Pair, Token)>,
    pub vocab: Vec<(Token, Vec<u8>)>,
}

impl RegexTokenizerStruct {
    /// Well-formed state: compiling pattern, well-formed merges and
    /// special tokens, disjoint id spaces, and the derived vocabulary.
    pub open spec fn wf(&self) -> bool {
        &&& regex_ok(self.pattern@)
        &&& merges_wf(self.merges@)
        &&& specials_wf(specials_view(self.special_tokens@))
        &&& specials_disjoint(specials_view(self.special_tokens@), self.merges@)
        &&& vocab_view(self.vocab@) == spec_build_vocab(
            specials_view(self.special_tokens@),
            self.merges@,
        )
    }

    /// A tokenizer with the given split pattern and no merges or special
    /// tokens yet. A pattern the regex engine rejects is
    /// `ConfigurationError`, and nothing is built.
    pub fn new(pattern: String) -> (r: Result<RegexTokenizerStruct, TokenizerError>)
        ensures
            regex_ok(pattern@) ==> r is Ok && r.unwrap().wf() && r.unwrap().pattern@ == pattern@
                && r.unwrap().merges@ =~= Seq::<(Pair, Token)>::empty() && r.unwrap().special_tokens@
                =~= Seq::<(String, Token)>::empty(),
            !regex_ok(pattern@) ==> r == Result::<RegexTokenizerStruct, TokenizerError>::Err(
                TokenizerError::ConfigurationError,
            ),
    {
        if !regex_compiles(pattern.as_str()) {
            return Err(TokenizerError::ConfigurationError);
        }
        let special_tokens: Vec<(String, Token)> = Vec::new();
        let merges: Vec<(Pair, Token)> = Vec::new();
        proof {
            assert(merges_wf(Seq::<(Pair, Token)>::empty()));
        }
        let vocab = build_vocab(&special_tokens, &merges);
        Ok(RegexTokenizerStruct { pattern, special_tokens, merges, vocab })
    }

    /// The default tokenizer: the GPT-4 split pattern.
    pub fn default_gpt4() -> (r: Result<RegexTokenizerStruct, TokenizerError>)
        ensures
            regex_ok(gpt4_split_pattern_spec()) ==> r is Ok && r.unwrap().wf() && r.unwrap().pattern@
                == gpt4_split_pattern_spec() && r.unwrap().merges@ =~= Seq::<
                (Pair, Token),
            >::empty() && r.unwrap().special_tokens@ =~= Seq::<(String, Token)>::empty(),
    {
        Self::new(gpt4_split_pattern())
    }

    /// Replaces the special-token table and rebuilds the vocabulary.
    /// Names must be nonempty and distinct, ids distinct, at least 256,
    /// and disjoint from the merge tokens.
    pub fn set_special_tokens(&mut self, special_tokens: Vec<(String, Token)>)
        requires
            old(self).wf(),
            specials_wf(specials_view(special_tokens@)),
            specials_disjoint(specials_view(special_tokens@), old(self).merges@),
        ensures
            final(self).wf(),
            final(self).special_tokens@ == special_tokens@,
            final(self).merges@ == old(self).merges@,
            final(self).pattern@ == old(self).pattern@,
    {
        let vocab = build_vocab(&special_tokens, &self.merges);
        self.special_tokens = special_tokens;
        self.vocab = vocab;
    }

    /// Encodes one chunk's bytes with the merge table alone.
    pub fn encode_chunk(&self, chunk_bytes: &Vec<u8>) -> (r: Vec<Token>)
        requires
            self.wf(),
        ensures
            r@ == spec_encode(self.merges@, byte_ids(chunk_bytes@)),
    {
        let ids = bytes_to_ids(chunk_bytes);
        encode_ids(&self.merges, ids)
    }

    /// Encoding that ignores any special tokens: splits the text by the
    /// pattern and encodes each chunk independently, concatenating in
    /// match order. An engine failure on this input is
    /// `ConfigurationError`.
    pub fn encode_ordinary(&self, text: &str) -> (r: Result<Vec<Token>, TokenizerError>)
        requires
            self.wf(),
        ensures
            match spec_encode_ordinary(self.merges@, self.pattern@, text@) {
                Some(ids) => r is Ok && r.unwrap()@ == ids,
                None => r == Result::<Vec<Token>, TokenizerError>::Err(
                    TokenizerError::ConfigurationError,
                ),
            },
    {
        let chunks = match regex_split(self.pattern.as_str(), text) {
            Some(cs) => cs,
            None => {
                return Err(TokenizerError::ConfigurationError);
            },
        };
        let ghost cs = split_of(self.pattern@, text@).unwrap();
        let mut ids: Vec<Token> = Vec::new();
        let n = chunks.len();
        let mut c: usize = 0;
        proof {
            assert(chunks.deep_view() == cs);
            assert(cs.skip(0) =~= cs);
        }
        while c < n
            invariant
                self.wf(),
                n == chunks@.len(),
                c <= n,
                chunks.deep_view() == cs,
                spec_encode_chunks(self.merges@, cs) == ids@ + spec_encode_chunks(
                    self.merges@,
                    cs.skip(c as int),
                ),
            decreases n - c,
        {
            let ghost pre = ids@;
            let bytes = chunks[c].as_str().as_bytes_vec();
            let mut chunk_ids = self.encode_chunk(&bytes);
            ids.append(&mut chunk_ids);
            proof {
                let rest = cs.skip(c as int);
                assert(rest[0] == chunks@[c as int]@);
                assert(rest.drop_first() =~= cs.skip(c as int + 1));
                assert(ids@ == pre + spec_encode(
                    self.merges@,
                    byte_ids(vstd::utf8::encode_utf8(rest[0])),
                ));
                assert(pre + (spec_encode(self.merges@, byte_ids(vstd::utf8::encode_utf8(rest[0])))
                    + spec_encode_chunks(self.merges@, rest.drop_first())) =~= ids@
                    + spec_encode_chunks(self.merges@, cs.skip(c as int + 1)));
            }
            c += 1;
        }
        proof {
            assert(cs.skip(n as int) =~= Seq::<Seq<char>>::empty());
            assert(ids@ + Seq::<Token>::empty() =~= ids@);
        }
        Ok(ids)
    }

    /// The byte-token chunks a text trains over under a pattern split.
    pub open spec fn spec_train_chunks(pattern: Seq<char>, text: Seq<char>) -> Option<
        Seq<Seq<Token>>,
    > {
        match split_of(pattern, text) {
            Some(cs) => Some(cs.map_values(|c: Seq<char>| byte_ids(vstd::utf8::encode_utf8(c)))),
            None => None,
        }
    }

    /// Trains `vocab_size - 256` merges from the pattern-split chunks of
    /// `text` and installs the merge table and derived vocabulary.
    /// `vocab_size < 256` is `ConfigurationError`, a split failure is
    /// `ConfigurationError`, and running out of mergeable pairs is
    /// `TrainingExhaustionError`; on any error the tokenizer is left
    /// untouched.
    pub fn train(&mut self, text: &str, vocab_size: Token, verbose: bool) -> (r: Result<
        (),
        TokenizerError,
    >)
        requires
            old(self).wf(),
            // Special-token ids stay outside the minted merge-id sequence.
            forall|i: int|
                0 <= i < old(self).special_tokens@.len() ==> (#[trigger] specials_view(
                    old(self).special_tokens@,
                )[i]).1 >= vocab_size,
        ensures
            ({
                if vocab_size < 256 {
                    r == Result::<(), TokenizerError>::Err(TokenizerError::ConfigurationError)
                        && *final(self) == *old(self)
                } else {
                    match Self::spec_train_chunks(old(self).pattern@, text@) {
                        None => r == Result::<(), TokenizerError>::Err(
                            TokenizerError::ConfigurationError,
                        ) && *final(self) == *old(self),
                        Some(tchunks) => match spec_train(
                            tchunks,
                            vocab_size - 256,
                            256,
                            Seq::<(Pair, Token)>::empty(),
                        ) {
                            None => r == Result::<(), TokenizerError>::Err(
                                TokenizerError::TrainingExhaustionError,
                            ) && *final(self) == *old(self),
                            Some(m) => {
                                &&& r is Ok
                                &&& final(self).merges@ == m
                                &&& final(self).special_tokens@ == old(self).special_tokens@
                                &&& final(self).pattern@ == old(self).pattern@
                                &&& final(self).wf()
                            },
                        },
                    }
                }
            }),
    {
        if vocab_size < 256 {
            return Err(TokenizerError::ConfigurationError);
        }
        let chunks = match regex_split(self.pattern.as_str(), text) {
            Some(cs) => cs,
            None => {
                return Err(TokenizerError::ConfigurationError);
            },
        };
        let ghost cs = split_of(self.pattern@, text@).unwrap();
        let ghost tchunks = Self::spec_train_chunks(self.pattern@, text@).unwrap();
        let mut byte_chunks: Vec<Vec<Token>> = Vec::new();
        let n = chunks.len();
        let mut c: usize = 0;
        while c < n
            invariant
                n == chunks@.len(),
                c <= n,
                chunks.deep_view() == cs,
                tchunks == cs.map_values(|ch: Seq<char>| byte_ids(vstd::utf8::encode_utf8(ch))),
                chunks_view(byte_chunks@) == tchunks.take(c as int),
                chunks_tokens_valid(chunks_view(byte_chunks@), Seq::<(Pair, Token)>::empty(), 256),
            decreases n - c,
        {
            let bytes = chunks[c].as_str().as_bytes_vec();
            let ids = bytes_to_ids(&bytes);
            let ghost pre_bc = byte_chunks@;
            byte_chunks.push(ids);
            proof {
                assert(cs[c as int] == chunks@[c as int]@);
                assert(tchunks[c as int] == byte_ids(vstd::utf8::encode_utf8(cs[c as int])));
                assert(ids@ == byte_ids(vstd::utf8::encode_utf8(chunks@[c as int]@)));
                assert(chunks_view(byte_chunks@) =~= chunks_view(pre_bc).push(ids@));
                assert(tchunks.take(c as int + 1) =~= tchunks.take(c as int).push(
                    tchunks[c as int],
                ));
                assert(chunks_view(byte_chunks@) == tchunks.take(c as int + 1));
            }
            c += 1;
        }
        proof {
            assert(tchunks.take(n as int) =~= tchunks);
        }
        match train_merges(byte_chunks, vocab_size - 256) {
            Err(e) => Err(e),
            Ok(m) => {
                let vocab = build_vocab(&self.special_tokens, &m);
                proof {
                    assert forall|i: int, j: int|
                        0 <= i < specials_view(self.special_tokens@).len() && 0 <= j
                            < m@.len() implies (#[trigger] specials_view(
                        self.special_tokens@,
                    )[i]).1 != (#[trigger] m@[j]).1 by {
                        assert(m@[j].1 == 256 + j);
                        assert(m@[j].1 < vocab_size);
                        assert(specials_view(self.special_tokens@)[i].1 >= vocab_size);
                    }
                }
                self.merges = m;
                self.vocab = vocab;
                Ok(())
            },
        }
    }

    /// The split pattern's text.
    pub fn pattern(&self) -> (r: &str)
        ensures
            r@ == self.pattern@,
    {
        self.pattern.as_str()
    }

    /// The registered special tokens, in registration order.
    pub fn special_tokens(&self) -> (r: &Vec<(String, Token)>)
        ensures
            r == &self.special_tokens,
    {
        &self.special_tokens
    }

    /// The merge table, insertion order being priority order.
    pub fn merges(&self) -> (r: &Vec<(Pair, Token)>)
        ensures
            r == &self.merges,
    {
        &self.merges
    }

    /// The vocabulary derived from special tokens and merges.
    pub fn vocab(&self) -> (r: &Vec<(Token, Vec<u8>)>)
        ensures
            r == &self.vocab,
    {
        &self.vocab
    }

    /// The special-token table inverted: each id with its token string.
    pub fn inverse_special_tokens(&self) -> (r: Vec<(Token, String)>)
        ensures
            r@.len() == self.special_tokens@.len(),
            forall|i: int|
                0 <= i < r@.len() ==> (#[trigger] r@[i]).0 == self.special_tokens@[i].1
                    && r@[i].1@ == self.special_tokens@[i].0@,
    {
        let n = self.special_tokens.len();
        let mut r: Vec<(Token, String)> = Vec::new();
        let mut i: usize = 0;
        while i < n
            invariant
                n == self.special_tokens@.len(),
                i <= n,
                r@.len() == i,
                forall|j: int|
                    0 <= j < i ==> (#[trigger] r@[j]).0 == self.special_tokens@[j].1 && r@[j].1@
                        == self.special_tokens@[j].0@,
            decreases n - i,
        {
            r.push((self.special_tokens[i].1, self.special_tokens[i].0.clone()));
            i += 1;
        }
        r
    }

    /// Round trip: for a well-formed tokenizer, the chunk-wise encoding
    /// of any chunk list expands back to exactly the concatenation of the
    /// chunks' UTF-8 bytes. When the split pattern's matches cover the
    /// text — as the bundled profiles' patterns do — decoding an encoding
    /// therefore yields the text again.
    pub proof fn lemma_round_trip(self, cs: Seq<Seq<char>>)
        requires
            self.wf(),
        ensures
            spec_expand(
                vocab_view(self.vocab@),
                spec_encode_chunks(self.merges@, cs),
            ) == Some(spec_chunk_bytes(cs)),
        decreases cs.len(),
    {
        let v = vocab_view(self.vocab@);
        if cs.len() == 0 {
            assert(spec_chunk_bytes(cs) =~= Seq::<u8>::empty());
            assert(spec_expand(v, Seq::<Token>::empty()) == Some(Seq::<u8>::empty()));
        } else {
            let head_bytes = vstd::utf8::encode_utf8(cs[0]);
            let head = spec_encode(self.merges@, byte_ids(head_bytes));
            lemma_encode_expand_round_trip(
                specials_view(self.special_tokens@),
                self.merges@,
                head_bytes,
            );
            self.lemma_round_trip(cs.drop_first());
            lemma_expand_concat(v, head, spec_encode_chunks(self.merges@, cs.drop_first()));
            assert(head_bytes + spec_chunk_bytes(cs.drop_first()) =~= spec_chunk_bytes(cs));
        }
    }

    /// Decodes a token sequence to text: each id's vocabulary bytes —
    /// merge tokens and special tokens alike — concatenated and rendered
    /// as text with invalid UTF-8 replaced; an id with no entry is
    /// `UnknownTokenError`.
    pub fn decode(&self, ids: &Vec<Token>) -> (r: Result<String, TokenizerError>)
        requires
            self.wf(),
        ensures
            match spec_expand(vocab_view(self.vocab@), ids@) {
                Some(b) => {
                    &&& r is Ok
                    &&& r.unwrap()@ == lossy_of(b)
                    &&& vstd::utf8::valid_utf8(b) ==> r.unwrap()@ == vstd::utf8::decode_utf8(b)
                },
                None => r == Result::<String, TokenizerError>::Err(
                    TokenizerError::UnknownTokenError,
                ),
            },
    {
        match expand_ids(&self.vocab, ids) {
            Some(bytes) => Ok(lossy_string(&bytes)),
            None => Err(TokenizerError::UnknownTokenError),
        }
    }
}

} // verus!
