//! Minimal byte-level byte-pair-encoding tokenizer: no split pattern, no
//! special-token handling during encoding. Training, encoding and decoding
//! operate on the whole text as a single chunk.

use vstd::prelude::*;

use crate::base::build_vocab;
use crate::base::byte_ids;
use crate::base::bytes_to_ids;
use crate::base::chunks_tokens_valid;
use crate::base::chunks_view;
use crate::base::encode_ids;
use crate::base::find_token_index;
use crate::base::has_key;
use crate::base::lemma_encode_expand_round_trip;
use crate::base::lemma_key_index;
use crate::base::lemma_view_key_index;
use crate::base::lossy_of;
use crate::base::lossy_string;
use crate::base::merges_wf;
use crate::base::spec_build_vocab;
use crate::base::spec_encode;
use crate::base::spec_expand;
use crate::base::spec_train;
use crate::base::specials_view;
use crate::base::train_merges;
use crate::base::value_of;
use crate::base::vocab_view;
use crate::base::Pair;
use crate::base::Token;
use crate::base::TokenizerError;
use vstd::string::StrSliceExecFns;

verus! {

/// A trained tokenizer state: an ordered special-token table, an ordered
/// merge table, and the vocabulary derived from both.
pub struct BasicTokenizer {
    pub special_tokens: Vec<(String, Token)>,
    pub merges: Vec<(Pair, Token)>,
    pub vocab: Vec<(Token, Vec<u8>)>,
}

impl BasicTokenizer {
    /// Well-formed state: the merge table is well-formed and the
    /// vocabulary is exactly the one derived from special tokens and
    /// merges.
    pub open spec fn wf(&self) -> bool {
        &&& merges_wf(self.merges@)
        &&& vocab_view(self.vocab@) == spec_build_vocab(
            specials_view(self.special_tokens@),
            self.merges@,
        )
    }

    /// An untrained tokenizer: no special tokens, no merges, and the
    /// vocabulary holding just the 256 raw byte entries.
    pub fn new() -> (r: BasicTokenizer)
        ensures
            r.wf(),
            r.special_tokens@ =~= Seq::<(String, Token)>::empty(),
            r.merges@ =~= Seq::<(Pair, Token)>::empty(),
    {
        let special_tokens: Vec<(String, Token)> = Vec::new();
        let merges: Vec<(Pair, Token)> = Vec::new();
        proof {
            assert(merges_wf(Seq::<(Pair, Token)>::empty()));
        }
        let vocab = build_vocab(&special_tokens, &merges);
        BasicTokenizer { special_tokens, merges, vocab }
    }

    /// The token sequence a text trains over: one token per UTF-8 byte,
    /// as a single chunk.
    pub open spec fn spec_train_chunks(text: Seq<char>) -> Seq<Seq<Token>> {
        seq![byte_ids(vstd::utf8::encode_utf8(text))]
    }

    /// Trains `vocab_size - 256` merges from `text` and installs the merge
    /// table and derived vocabulary. Rejects `vocab_size < 256` with
    /// `ConfigurationError` before any work; fails with
    /// `TrainingExhaustionError` when the text runs out of adjacent pairs
    /// first. On any error the tokenizer is left untouched.
    pub fn train(&mut self, text: &str, vocab_size: Token, verbose: bool) -> (r: Result<
        (),
        TokenizerError,
    >)
        requires
            old(self).wf(),
        ensures
            ({
                let trained = spec_train(
                    Self::spec_train_chunks(text@),
                    vocab_size - 256,
                    256,
                    Seq::<(Pair, Token)>::empty(),
                );
                if vocab_size < 256 {
                    r == Result::<(), TokenizerError>::Err(TokenizerError::ConfigurationError)
                        && *final(self) == *old(self)
                } else {
                    match trained {
                        None => r == Result::<(), TokenizerError>::Err(
                            TokenizerError::TrainingExhaustionError,
                        ) && *final(self) == *old(self),
                        Some(m) => {
                            &&& r is Ok
                            &&& final(self).merges@ == m
                            &&& final(self).special_tokens@ == old(self).special_tokens@
                            &&& final(self).wf()
                        },
                    }
                }
            }),
    {
        if vocab_size < 256 {
            return Err(TokenizerError::ConfigurationError);
        }
        let bytes = text.as_bytes_vec();
        let ids = bytes_to_ids(&bytes);
        let mut chunks: Vec<Vec<Token>> = Vec::new();
        chunks.push(ids);
        proof {
            assert(chunks_view(chunks@) =~= Self::spec_train_chunks(text@));
            assert(chunks_tokens_valid(chunks_view(chunks@), Seq::<(Pair, Token)>::empty(), 256));
        }
        match train_merges(chunks, vocab_size - 256) {
            Err(e) => Err(e),
            Ok(m) => {
                let vocab = build_vocab(&self.special_tokens, &m);
                self.merges = m;
                self.vocab = vocab;
                Ok(())
            },
        }
    }

    /// Encodes a text: one token per UTF-8 byte, then repeatedly the
    /// applicable merge with the smallest token id, until none applies.
    pub fn encode(&self, text: &str) -> (r: Vec<Token>)
        requires
            self.wf(),
        ensures
            r@ == spec_encode(self.merges@, byte_ids(vstd::utf8::encode_utf8(text@))),
    {
        let bytes = text.as_bytes_vec();
        let ids = bytes_to_ids(&bytes);
        encode_ids(&self.merges, ids)
    }

    /// Decodes a token sequence to text: each id's vocabulary bytes,
    /// concatenated, rendered as text with invalid UTF-8 replaced; an id
    /// without a vocabulary entry is `UnknownTokenError`.
    pub fn decode(&self, ids: &Vec<Token>) -> (r: Result<String, TokenizerError>)
        requires
            self.wf(),
        ensures
            match spec_expand(vocab_view(self.vocab@), ids@) {
                Some(b) => {
                    &&& r is Ok
                    &&& r.unwrap()@ == lossy_of(b)
                    &&& vstd::utf8::valid_utf8(b) ==> r.unwrap()@ == vstd::utf8::decode_utf8(b)
                },
                None => r == Result::<String, TokenizerError>::Err(TokenizerError::UnknownTokenError),
            },
    {
        match expand_ids(&self.vocab, ids) {
            Some(bytes) => Ok(lossy_string(&bytes)),
            None => Err(TokenizerError::UnknownTokenError),
        }
    }

    /// The registered special tokens, in registration order.
    pub fn special_tokens(&self) -> (r: &Vec<(String, Token)>)
        ensures
            r == &self.special_tokens,
    {
        &self.special_tokens
    }

    /// The merge table, insertion order being priority order.
    pub fn merges(&self) -> (r: &Vec<(Pair, Token)>)
        ensures
            r == &self.merges,
    {
        &self.merges
    }

    /// The vocabulary derived from special tokens and merges.
    pub fn vocab(&self) -> (r: &Vec<(Token, Vec<u8>)>)
        ensures
            r == &self.vocab,
    {
        &self.vocab
    }

    /// Round trip: for a well-formed tokenizer, the encoding of any byte
    /// sequence expands back to exactly those bytes, so decoding the
    /// encoding of a text yields the text again.
    pub proof fn lemma_round_trip(self, b: Seq<u8>)
        requires
            self.wf(),
        ensures
            spec_expand(
                vocab_view(self.vocab@),
                spec_encode(self.merges@, byte_ids(b)),
            ) == Some(b),
    {
        lemma_encode_expand_round_trip(specials_view(self.special_tokens@), self.merges@, b);
    }
}

/// The vocabulary bytes of a token sequence, concatenated; nothing if some
/// id has no vocabulary entry.
pub fn expand_ids(vocab: &Vec<(Token, Vec<u8>)>, ids: &Vec<Token>) -> (r: Option<Vec<u8>>)
    ensures
        match r {
            Some(bytes) => spec_expand(vocab_view(vocab@), ids@) == Some(bytes@),
            None => spec_expand(vocab_view(vocab@), ids@) is None,
        },
{
    let ghost vv = vocab_view(vocab@);
    let n = ids.len();
    let mut bytes: Vec<u8> = Vec::new();
    proof {
        assert(ids@.skip(0) =~= ids@);
        match spec_expand(vv, ids@) {
            Some(rest) => {
                assert(bytes@ + rest =~= rest);
            },
            None => {
            },
        }
    }
    let mut k: usize = 0;
    while k < n
        invariant
            n == ids@.len(),
            k <= n,
            vv == vocab_view(vocab@),
            match spec_expand(vv, ids@.skip(k as int)) {
                Some(rest) => spec_expand(vv, ids@) == Some(bytes@ + rest),
                None => spec_expand(vv, ids@) is None,
            },
        decreases n - k,
    {
        let ghost pre = bytes@;
        let ghost rest_ids = ids@.skip(k as int);
        proof {
            lemma_view_key_index(vocab@, ids@[k as int]);
            lemma_key_index(vv, ids@[k as int]);
            assert(rest_ids[0] == ids@[k as int]);
            assert(rest_ids.drop_first() =~= ids@.skip(k as int + 1));
        }
        match find_token_index(vocab, ids[k]) {
            Some(i) => {
                bytes.extend_from_slice(vocab[i].1.as_slice());
                proof {
                    assert(value_of(vv, ids@[k as int]) == vv[i as int].1);
                    assert(vv[i as int].1 == vocab@[i as int].1@);
                    match spec_expand(vv, ids@.skip(k as int + 1)) {
                        Some(rest2) => {
                            assert(spec_expand(vv, rest_ids) == Some(
                                value_of(vv, rest_ids[0]) + rest2,
                            ));
                            assert(pre + (value_of(vv, rest_ids[0]) + rest2) =~= bytes@ + rest2);
                        },
                        None => {
                            assert(spec_expand(vv, rest_ids) is None);
                        },
                    }
                }
            },
            None => {
                proof {
                    assert(!has_key(vv, rest_ids[0]));
                    assert(spec_expand(vv, rest_ids) is None);
                }
                return None;
            },
        }
        k += 1;
    }
    proof {
        assert(ids@.skip(n as int) =~= Seq::<Token>::empty());
        assert(spec_expand(vv, Seq::<Token>::empty()) == Some(Seq::<u8>::empty()));
        assert(bytes@ + Seq::<u8>::empty() =~= bytes@);
    }
    Some(bytes)
}

} // verus!
