//! The training capability as an interface: a tokenizer that can learn a
//! merge table from text, shared by the byte-level and the
//! pattern-splitting tokenizer.

use vstd::prelude::*;

use crate::base::Token;
use crate::base::TokenizerError;

verus! {

/// A tokenizer that can be trained.
pub trait Trainable: Sized {
    /// Well-formed tokenizer state, preserved by training.
    spec fn train_wf(&self) -> bool;

    /// What a particular training call additionally needs of the state.
    spec fn train_ready(&self, vocab_size: Token) -> bool;

    /// Trains a vocabulary of size `vocab_size` in distinct tokens from
    /// `text`. Rejects `vocab_size < 256` with `ConfigurationError`; a
    /// text that runs out of mergeable pairs is
    /// `TrainingExhaustionError`; on any error the tokenizer keeps a
    /// well-formed state.
    fn train(&mut self, text: &str, vocab_size: Token, verbose: bool) -> (r: Result<
        (),
        TokenizerError,
    >)
        requires
            old(self).train_wf(),
            old(self).train_ready(vocab_size),
        ensures
            final(self).train_wf(),
            vocab_size < 256 ==> r == Result::<(), TokenizerError>::Err(
                TokenizerError::ConfigurationError,
            ),
    ;
}

impl Trainable for crate::basic::BasicTokenizer {
    open spec fn train_wf(&self) -> bool {
        self.wf()
    }

    open spec fn train_ready(&self, vocab_size: Token) -> bool {
        true
    }

    fn train(&mut self, text: &str, vocab_size: Token, verbose: bool) -> (r: Result<
        (),
        TokenizerError,
    >) {
        crate::basic::BasicTokenizer::train(self, text, vocab_size, verbose)
    }
}

impl Trainable for crate::regex::RegexTokenizerStruct {
    open spec fn train_wf(&self) -> bool {
        self.wf()
    }

    /// Registered special-token ids must stay outside the minted merge-id
    /// sequence.
    open spec fn train_ready(&self, vocab_size: Token) -> bool {
        forall|i: int|
            0 <= i < self.special_tokens@.len() ==> (#[trigger] crate::base::specials_view(
                self.special_tokens@,
            )[i]).1 >= vocab_size
    }

    fn train(&mut self, text: &str, vocab_size: Token, verbose: bool) -> (r: Result<
        (),
        TokenizerError,
    >) {
        crate::regex::RegexTokenizerStruct::train(self, text, vocab_size, verbose)
    }
}

} // verus!
