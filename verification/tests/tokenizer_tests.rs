//! Tests for training, encoding, decoding and the persisted model format,
//! on the byte-level and the pattern-splitting tokenizer.

use minbpe::AllowedSpecial;
use minbpe::Trainable;
use minbpe::BasicTokenizer;
use minbpe::RegexTokenizerStruct;
use minbpe::Token;
use minbpe::TokenizerError;

const LLAMA_TEXT: &str = r###"<|endoftext|>The llama (/Ààl…ëÀêm…ô/; Spanish pronunciation: [Àà éama] or [Àà ùama]) (Lama glama) is a domesticated South American camelid, widely used as a meat and pack animal by Andean cultures since the pre-Columbian era.
Llamas are social animals and live with others as a herd. Their wool is soft and contains only a small amount of lanolin.[2] Llamas can learn simple tasks after a few repetitions. When using a pack, they can carry about 25 to 30% of their body weight for 8 to 13 km (5‚Äì8 miles).[3] The name llama (in the past also spelled "lama" or "glama") was adopted by European settlers from native Peruvians.[4]
The ancestors of llamas are thought to have originated from the Great Plains of North America about 40 million years ago, and subsequently migrated to South America about three million years ago during the Great American Interchange. By the end of the last ice age (10,000‚Äì12,000 years ago), camelids were extinct in North America.[3] As of 2007, there were over seven million llamas and alpacas in South America and over 158,000 llamas and 100,000 alpacas, descended from progenitors imported late in the 20th century, in the United States and Canada.[5]
<|fim_prefix|>In Aymara mythology, llamas are important beings. The Heavenly Llama is said to drink water from the ocean and urinates as it rains.[6] According to Aymara eschatology,<|fim_suffix|> where they come from at the end of time.[6]<|fim_middle|> llamas will return to the water springs and ponds<|endofprompt|>"###;

fn special_tokens_sample() -> Vec<(String, Token)> {
    vec![
        ("<|endoftext|>".to_string(), 100257),
        ("<|fim_prefix|>".to_string(), 100258),
        ("<|fim_middle|>".to_string(), 100259),
        ("<|fim_suffix|>".to_string(), 100260),
        ("<|endofprompt|>".to_string(), 100276),
    ]
}

// Quick unit test, following along the classic worked example: training
// "aaabdaaabac" for 3 merges yields Z=aa (256), Y=ab (257), X=ZY (258),
// so encoding the text again gives [258, 100, 258, 97, 99].
#[test]
fn test_wikipedia_example() {
    let text = "aaabdaaabac";

    let mut basic = BasicTokenizer::new();
    basic.train(text, 256 + 3, false).unwrap();
    let ids = basic.encode(text);
    assert_eq!(ids, [258, 100, 258, 97, 99]);
    let decoded = basic.decode(&ids).unwrap();
    assert_eq!(decoded, text);

    let mut regex = RegexTokenizerStruct::default_gpt4().unwrap();
    regex.train(text, 256 + 3, false).unwrap();
    let ids = regex.encode(text).unwrap();
    assert_eq!(ids, [258, 100, 258, 97, 99]);
    let decoded = regex.decode(&ids).unwrap();
    assert_eq!(decoded, text);
}

fn test_save_load_inner(special_tokens: &Vec<(String, Token)>) {
    // take a bit more complex piece of text and train the tokenizer
    let text = LLAMA_TEXT;
    // create a tokenizer and do 64 merges
    let mut tokenizer = RegexTokenizerStruct::default_gpt4().unwrap();
    tokenizer.train(text, 256 + 64, false).unwrap();
    tokenizer.set_special_tokens(special_tokens.clone());

    // verify that decode(encode(x)) == x
    let encoded = tokenizer
        .encode_special(text, AllowedSpecial::AllowAll)
        .unwrap();
    let decoded = tokenizer.decode(&encoded).unwrap();
    assert_eq!(decoded, text);

    // verify that save/load work as expected; serialize the model
    let model = tokenizer.save();

    // re-load the tokenizer
    let tokenizer = RegexTokenizerStruct::load(&model).unwrap();

    // verify that decode(encode(x)) == x
    assert_eq!(tokenizer.decode(&encoded).unwrap(), text);
    assert_eq!(
        tokenizer
            .decode(
                &tokenizer
                    .encode_special(text, AllowedSpecial::AllowAll)
                    .unwrap()
            )
            .unwrap(),
        text
    );
    assert_eq!(
        tokenizer
            .encode_special(text, AllowedSpecial::AllowAll)
            .unwrap(),
        encoded
    );
}

#[test]
fn test_save_load() {
    let special_tokens: Vec<(String, Token)> = Vec::new();
    test_save_load_inner(&special_tokens);
    let special_tokens = special_tokens_sample();
    test_save_load_inner(&special_tokens);
}

#[test]
fn test_encode_empty() {
    let mut tokenizer = RegexTokenizerStruct::default_gpt4().unwrap();
    tokenizer.train("aaabdaaabac", 259, false).unwrap();
    let ids = tokenizer.encode("").unwrap();
    assert_eq!(ids, Vec::<Token>::new());
    assert_eq!(tokenizer.decode(&Vec::new()).unwrap(), "");

    let basic = BasicTokenizer::new();
    assert_eq!(basic.encode(""), Vec::<Token>::new());
    assert_eq!(basic.decode(&Vec::new()).unwrap(), "");
}

#[test]
fn test_train_vocab_size_too_small() {
    let mut tokenizer = BasicTokenizer::new();
    let r = tokenizer.train("aaabdaaabac", 255, false);
    assert_eq!(r, Err(TokenizerError::ConfigurationError));
    // no state change: the tokenizer still encodes bytes as themselves
    assert_eq!(tokenizer.merges().len(), 0);
    assert_eq!(tokenizer.encode("ab"), vec![97, 98]);

    let mut regex = RegexTokenizerStruct::default_gpt4().unwrap();
    let r = regex.train("aaabdaaabac", 255, false);
    assert_eq!(r, Err(TokenizerError::ConfigurationError));
    assert_eq!(regex.merges().len(), 0);
}

#[test]
fn test_training_exhaustion() {
    // A single character has no adjacent pair at all.
    let mut tokenizer = BasicTokenizer::new();
    let r = tokenizer.train("a", 257, false);
    assert_eq!(r, Err(TokenizerError::TrainingExhaustionError));
    assert_eq!(tokenizer.merges().len(), 0);
}

#[test]
fn test_training_is_deterministic() {
    let text = "abracadabra abracadabra";
    let mut t1 = RegexTokenizerStruct::default_gpt4().unwrap();
    let mut t2 = RegexTokenizerStruct::default_gpt4().unwrap();
    t1.train(text, 256 + 8, false).unwrap();
    t2.train(text, 256 + 8, false).unwrap();
    assert_eq!(t1.merges(), t2.merges());
    assert_eq!(t1.vocab(), t2.vocab());
    assert_eq!(t1.encode(text).unwrap(), t2.encode(text).unwrap());
}

#[test]
fn test_chunking_bounds_merges() {
    // With the pattern split, " a b" style boundaries keep the space away
    // from the preceding letter: training "a b" can only learn the pair
    // inside the chunk " b", never one crossing into "a".
    let mut tokenizer = RegexTokenizerStruct::default_gpt4().unwrap();
    tokenizer.train("a b", 257, false).unwrap();
    assert_eq!(tokenizer.merges(), &vec![(((32, 98)), 256)]);
    assert_eq!(tokenizer.encode("a b").unwrap(), vec![97, 256]);
}

#[test]
fn test_decode_unknown_token() {
    let tokenizer = BasicTokenizer::new();
    let r = tokenizer.decode(&vec![300]);
    assert_eq!(r, Err(TokenizerError::UnknownTokenError));
}

#[test]
fn test_round_trip_unicode() {
    let text = "hello world!!!? (안녕하세요!) lol123 😉";
    let mut tokenizer = BasicTokenizer::new();
    tokenizer.train(text, 256 + 16, false).unwrap();
    let ids = tokenizer.encode(text);
    assert_eq!(tokenizer.decode(&ids).unwrap(), text);
}

#[test]
fn test_new_rejects_malformed_pattern() {
    let r = RegexTokenizerStruct::new("(((".to_string());
    assert_eq!(r.err(), Some(TokenizerError::ConfigurationError));
}

#[test]
fn test_load_rejects_bad_version() {
    let r = RegexTokenizerStruct::load("something else\n\n0\n");
    assert_eq!(r.err(), Some(TokenizerError::FormatError));
}

#[test]
fn test_load_rejects_malformed_merge_line() {
    let r = RegexTokenizerStruct::load("minbpe v1\n\n0\n97 notanumber\n");
    assert_eq!(r.err(), Some(TokenizerError::FormatError));
}

#[test]
fn test_load_rejects_out_of_range_parent() {
    // The first merge line may only reference raw bytes (below 256).
    let r = RegexTokenizerStruct::load("minbpe v1\n\n0\n97 300\n");
    assert_eq!(r.err(), Some(TokenizerError::FormatError));
}

#[test]
fn test_save_load_format_shape() {
    let mut tokenizer = RegexTokenizerStruct::default_gpt4().unwrap();
    tokenizer.train("aaabdaaabac", 259, false).unwrap();
    let model = tokenizer.save();
    let mut lines = model.lines();
    assert_eq!(lines.next(), Some("minbpe v1"));
    // the pattern line, then the special-token count
    let _pattern = lines.next().unwrap();
    assert_eq!(lines.next(), Some("0"));
    // three merges in replay order: aa, then aa+a, then that plus b
    assert_eq!(lines.next(), Some("97 97"));
    assert_eq!(lines.next(), Some("256 97"));
    assert_eq!(lines.next(), Some("257 98"));
    assert_eq!(lines.next(), None);

    let reloaded = RegexTokenizerStruct::load(&model).unwrap();
    assert_eq!(reloaded.merges(), tokenizer.merges());
    assert_eq!(
        reloaded.encode("aaabdaaabac").unwrap(),
        vec![258, 100, 258, 97, 99]
    );
}


fn train_through_trait<T: Trainable>(tokenizer: &mut T, text: &str, vocab_size: minbpe::Token) {
    tokenizer.train(text, vocab_size, false).unwrap();
}

#[test]
fn test_trainable_interface() {
    let text = "aaabdaaabac";
    let mut basic = BasicTokenizer::new();
    train_through_trait(&mut basic, text, 259);
    assert_eq!(basic.encode(text), [258, 100, 258, 97, 99]);

    let mut regex = RegexTokenizerStruct::default_gpt4().unwrap();
    train_through_trait(&mut regex, text, 259);
    assert_eq!(regex.encode(text).unwrap(), [258, 100, 258, 97, 99]);
}

#[test]
fn test_render_vocab_listing() {
    let mut tokenizer = RegexTokenizerStruct::default_gpt4().unwrap();
    tokenizer.train("aaabdaaabac", 257, false).unwrap();
    let listing = tokenizer.render_vocab();
    let lines: Vec<&str> = listing.lines().collect();
    // 256 leaf lines and one merge line.
    assert_eq!(lines.len(), 257);
    assert_eq!(lines[97], "[a] 97");
    assert_eq!(lines[256], "[a][a] -> [aa] 256");
    // A control character renders as its escape.
    assert_eq!(lines[10], "[\\u000a] 10");
}
