//! Tests for the special-token overlay and its encoding policies.

use minbpe::AllowedSpecial;
use minbpe::RegexTokenizerStruct;
use minbpe::Token;
use minbpe::TokenizerError;

fn trained_with_eot() -> RegexTokenizerStruct {
    let mut tokenizer = RegexTokenizerStruct::default_gpt4().unwrap();
    tokenizer
        .train("Hello, world! Goodbye, world!, So long...", 256 + 10, true)
        .unwrap();
    let special_tokens = vec![("<|endoftext|>".to_string(), 100257)];
    tokenizer.set_special_tokens(special_tokens);
    tokenizer
}

#[test]
fn test_pattern_matching() {
    // Splitting around the literal special token produces alternating
    // ordinary and special segments covering the whole input.
    let tokenizer = trained_with_eot();
    let text = "Hello, world! <|endoftext|>";
    let _ = tokenizer
        .encode_special(text, AllowedSpecial::AllowAll)
        .unwrap();
}

#[test]
fn test_encode_special() {
    let mut tokenizer = RegexTokenizerStruct::default_gpt4().unwrap();
    tokenizer
        .train("Hello, world! Goodbye, world!, So long...", 256 + 10, true)
        .unwrap();

    let text = "Hello, world! <|endoftext|>";

    let special_tokens = vec![("<|endoftext|>".to_string(), 100257)];
    tokenizer.set_special_tokens(special_tokens);

    let encoded_all = tokenizer
        .encode_special(text, AllowedSpecial::AllowAll)
        .unwrap();
    let encoded_none = tokenizer
        .encode_special(text, AllowedSpecial::AllowNone)
        .unwrap();

    let custom_set = vec!["<|endoftext|>".to_string()];
    let encoded_custom = tokenizer
        .encode_special(text, AllowedSpecial::AllowSet(custom_set))
        .unwrap();

    assert!(encoded_all.contains(&100257));
    assert!(!encoded_none.contains(&100257));
    assert!(encoded_custom.contains(&100257));
}

#[test]
#[should_panic]
fn test_encode_special_panic() {
    let mut tokenizer = RegexTokenizerStruct::default_gpt4().unwrap();
    let text = "Hello, world! <|endofext|>";

    let special_tokens = vec![("<|endofext|>".to_string(), 100257)];
    tokenizer.set_special_tokens(special_tokens);

    // The default policy rejects any registered special token in the text.
    let _ = tokenizer
        .encode_special(text, AllowedSpecial::RejectIfPresent)
        .unwrap();
}

#[test]
fn test_policy_semantics() {
    // For text containing the registered special token, AllowAll embeds
    // its id exactly once per literal occurrence, AllowNone never does,
    // RejectIfPresent fails, a set naming it embeds it, the empty set does
    // not.
    let tokenizer = trained_with_eot();
    let text = "one <|endoftext|> two <|endoftext|>";

    let all = tokenizer
        .encode_special(text, AllowedSpecial::AllowAll)
        .unwrap();
    assert_eq!(all.iter().filter(|&&t| t == 100257).count(), 2);

    let none = tokenizer
        .encode_special(text, AllowedSpecial::AllowNone)
        .unwrap();
    assert_eq!(none.iter().filter(|&&t| t == 100257).count(), 0);

    let reject = tokenizer.encode_special(text, AllowedSpecial::RejectIfPresent);
    assert_eq!(reject, Err(TokenizerError::PolicyViolationError));

    let named = tokenizer.encode_special(
        text,
        AllowedSpecial::AllowSet(vec!["<|endoftext|>".to_string()]),
    );
    assert!(named.unwrap().contains(&100257));

    let empty_set = tokenizer.encode_special(text, AllowedSpecial::AllowSet(Vec::new()));
    assert!(!empty_set.unwrap().contains(&100257));
}

#[test]
fn test_policies_agree_without_specials_in_text() {
    // On text free of special tokens every policy encodes ordinarily.
    let tokenizer = trained_with_eot();
    let text = "Hello, world!";
    let all = tokenizer
        .encode_special(text, AllowedSpecial::AllowAll)
        .unwrap();
    let none = tokenizer
        .encode_special(text, AllowedSpecial::AllowNone)
        .unwrap();
    let reject = tokenizer
        .encode_special(text, AllowedSpecial::RejectIfPresent)
        .unwrap();
    let ordinary = tokenizer.encode_ordinary(text).unwrap();
    assert_eq!(all, ordinary);
    assert_eq!(none, ordinary);
    assert_eq!(reject, ordinary);
}

#[test]
fn test_special_round_trip() {
    let tokenizer = trained_with_eot();
    let text = "Hello, world! <|endoftext|> Goodbye";
    let ids = tokenizer
        .encode_special(text, AllowedSpecial::AllowAll)
        .unwrap();
    assert_eq!(tokenizer.decode(&ids).unwrap(), text);
}

#[test]
fn test_leftmost_first_match() {
    // Of two tokens matching at the same position, the first-registered
    // wins; of matches at different positions, the leftmost wins.
    let mut tokenizer = RegexTokenizerStruct::default_gpt4().unwrap();
    tokenizer.train("xy xy xy", 256 + 1, true).unwrap();
    tokenizer.set_special_tokens(vec![
        ("<a>".to_string(), 500),
        ("<a><a>".to_string(), 501),
    ]);
    let ids = tokenizer
        .encode_special("<a><a>", AllowedSpecial::AllowAll)
        .unwrap();
    // "<a>" is registered first, so it matches twice; "<a><a>" never gets
    // a chance even though it also matches at position zero.
    assert_eq!(ids, vec![500, 500]);

    let inverse = tokenizer.inverse_special_tokens();
    assert_eq!(inverse[0], (500, "<a>".to_string()));
    assert_eq!(inverse[1], (501, "<a><a>".to_string()));
}

#[test]
fn test_encode_with_default_policy() {
    let tokenizer = trained_with_eot();
    let r = tokenizer.encode("Hello <|endoftext|>");
    assert_eq!(r, Err(TokenizerError::PolicyViolationError));
    let ok = tokenizer.encode("Hello there").unwrap();
    assert_eq!(ok, tokenizer.encode_ordinary("Hello there").unwrap());
}
