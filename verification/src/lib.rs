pub mod base;
pub mod basic;
pub mod fmt;
pub mod gpt4;
pub mod regex;
pub mod special;
pub mod test_common;
pub mod train_trait;

pub use base::build_vocab;
pub use base::get_max_entry;
pub use base::get_stats;
pub use base::merge;
pub use base::update_stats;
pub use base::Count;
pub use base::Pair;
pub use base::Token;
pub use base::TokenizerError;
pub use basic::BasicTokenizer;
pub use gpt4::GPT4Tokenizer;
pub use regex::RegexTokenizerStruct;
pub use special::AllowedSpecial;
pub use test_common::test_strings;
pub use train_trait::Trainable;
