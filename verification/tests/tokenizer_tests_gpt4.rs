//! Tests for compatibility recovery from a synthetic rank table: the
//! recovered tokenizer must reproduce the rank table's own pair-merge
//! encoder, byte permutation included.

use minbpe::gpt4::bpe;
use minbpe::gpt4::parse_rank_table;
use minbpe::gpt4::recover_merges;
use minbpe::GPT4Tokenizer;
use minbpe::Token;
use minbpe::TokenizerError;

/// A rank table with the identity byte permutation and three merges:
/// "ab" -> 256, "cd" -> 257, "abcd" -> 258.
fn identity_table() -> Vec<(Vec<u8>, Token)> {
    let mut t: Vec<(Vec<u8>, Token)> = Vec::new();
    for b in 0u16..256 {
        t.push((vec![b as u8], b as Token));
    }
    t.push((b"ab".to_vec(), 256));
    t.push((b"cd".to_vec(), 257));
    t.push((b"abcd".to_vec(), 258));
    t
}

/// A rank table whose single-byte ranks swap 'a' and 'b': the byte
/// string [97] carries rank 98 and [98] carries rank 97, so the token id
/// of 'a' is 98 and that of 'b' is 97.
fn swapped_table() -> Vec<(Vec<u8>, Token)> {
    let mut t: Vec<(Vec<u8>, Token)> = Vec::new();
    for b in 0u16..256 {
        let byte = match b {
            97 => 98u8,
            98 => 97u8,
            _ => b as u8,
        };
        t.push((vec![byte], b as Token));
    }
    t.push((b"ab".to_vec(), 256));
    t
}

/// The rank table's own encoder: decompose the (already shuffled) bytes
/// with the pair-merge procedure under no ceiling, then map each part to
/// its rank.
fn reference_rank_encode(table: &Vec<(Vec<u8>, Token)>, bytes: &Vec<u8>) -> Vec<Token> {
    let parts = bpe(table, bytes, None);
    let mut ids = Vec::new();
    for part in parts {
        let rank = table
            .iter()
            .find(|e| e.0 == part)
            .expect("part must be ranked")
            .1;
        ids.push(rank);
    }
    ids
}

#[test]
fn test_recover_merges_identity_table() {
    let table = identity_table();
    let merges = recover_merges(&table).unwrap();
    assert_eq!(
        merges,
        vec![((97, 98), 256), ((99, 100), 257), ((256, 257), 258)]
    );
}

#[test]
fn test_recovered_tokenizer_encodes_and_decodes() {
    let table = identity_table();
    let tokenizer = GPT4Tokenizer::new(&table).unwrap();
    assert_eq!(tokenizer.encode("abcd").unwrap(), vec![258]);
    assert_eq!(tokenizer.encode("ab").unwrap(), vec![256]);
    assert_eq!(tokenizer.encode("abc").unwrap(), vec![256, 99]);
    assert_eq!(tokenizer.decode(&vec![258]).unwrap(), "abcd");
    assert_eq!(tokenizer.decode(&vec![256, 99]).unwrap(), "abc");
}

#[test]
fn test_compatibility_equivalence() {
    // The recovered tokenizer's output equals the rank table's own
    // encoder output, chunk by chunk.
    let table = identity_table();
    let tokenizer = GPT4Tokenizer::new(&table).unwrap();
    for text in ["abcd", "ab", "abc", "cdab", "aabbccdd", "dcba"] {
        let direct = reference_rank_encode(&table, &text.as_bytes().to_vec());
        assert_eq!(tokenizer.encode(text).unwrap(), direct, "text {:?}", text);
    }
}

#[test]
fn test_byte_shuffle_round_trip() {
    let table = swapped_table();
    let tokenizer = GPT4Tokenizer::new(&table).unwrap();
    // The recovered merge pair speaks of ranks: the parts [97] and [98]
    // carry ranks 98 and 97.
    assert_eq!(tokenizer.merges(), &vec![((98, 97), 256)]);
    // "ab" passes through the byte permutation before ordinary encoding,
    // so its id sequence [98, 97] meets the recovered merge.
    assert_eq!(tokenizer.encode("ab").unwrap(), vec![256]);
    // A lone 'a' becomes its rank, 98.
    assert_eq!(tokenizer.encode("a").unwrap(), vec![98]);
    // Decoding applies the inverse permutation after vocabulary lookup.
    assert_eq!(tokenizer.decode(&vec![256]).unwrap(), "ab");
    assert_eq!(tokenizer.decode(&vec![98]).unwrap(), "a");

    // The output matches the rank table's own encoder applied to the raw
    // text bytes.
    let direct = reference_rank_encode(&table, &b"ab".to_vec());
    assert_eq!(tokenizer.encode("ab").unwrap(), direct);
}

#[test]
fn test_recover_rejects_inconsistent_table() {
    // An entry that cannot decompose into exactly two parts under the
    // ranks below it: "abc" appears with no two-byte stepping stone.
    let mut table: Vec<(Vec<u8>, Token)> = Vec::new();
    for b in 0u16..256 {
        table.push((vec![b as u8], b as Token));
    }
    table.push((b"abc".to_vec(), 256));
    let r = recover_merges(&table);
    assert_eq!(r, Err(TokenizerError::ConsistencyError));
    let t = GPT4Tokenizer::new(&table);
    assert_eq!(t.err(), Some(TokenizerError::ConsistencyError));
}

#[test]
fn test_new_rejects_missing_byte_rank() {
    // A table without every single byte cannot define the permutation.
    let mut table: Vec<(Vec<u8>, Token)> = Vec::new();
    for b in 0u16..255 {
        table.push((vec![b as u8], b as Token));
    }
    let t = GPT4Tokenizer::new(&table);
    assert_eq!(t.err(), Some(TokenizerError::ConsistencyError));
}

#[test]
fn test_parse_rank_table() {
    // "a" -> YQ==, "b" -> Yg==, "ab" -> YWI= in standard base64.
    let text = "YQ== 0\nYg== 1\nYWI= 2\n";
    let table = parse_rank_table(text).unwrap();
    assert_eq!(
        table,
        vec![(b"a".to_vec(), 0), (b"b".to_vec(), 1), (b"ab".to_vec(), 2)]
    );
}

#[test]
fn test_parse_rank_table_rejects_bad_lines() {
    assert_eq!(
        parse_rank_table("notbase64!!! 0\n").err(),
        Some(TokenizerError::FormatError)
    );
    assert_eq!(
        parse_rank_table("YQ== notanumber\n").err(),
        Some(TokenizerError::FormatError)
    );
    // Ranks must ascend strictly.
    assert_eq!(
        parse_rank_table("YQ== 1\nYg== 0\n").err(),
        Some(TokenizerError::FormatError)
    );
}

#[test]
fn test_register_special_tokens_x() {
    let table = identity_table();
    let mut tokenizer = GPT4Tokenizer::new(&table).unwrap();
    let extra = vec![("<|custom|>".to_string(), 200000)];
    tokenizer.register_special_tokens_x(&extra);
    assert_eq!(tokenizer.special_tokens().len(), 6);
    let r = tokenizer.encode("hi <|custom|>");
    assert_eq!(r, Err(TokenizerError::PolicyViolationError));
}

#[test]
fn test_gpt4_special_tokens_registered() {
    let table = identity_table();
    let tokenizer = GPT4Tokenizer::new(&table).unwrap();
    assert_eq!(tokenizer.special_tokens().len(), 5);
    assert_eq!(
        tokenizer.special_tokens()[0],
        ("<|endoftext|>".to_string(), 100257)
    );
    // The default policy rejects a registered special token in the text.
    let r = tokenizer.encode("x <|endoftext|> y");
    assert_eq!(r, Err(TokenizerError::PolicyViolationError));
}

#[test]
fn test_test_strings_fixture() {
    let strings = minbpe::test_strings();
    assert_eq!(strings.len(), 4);
    assert_eq!(strings[0], "");
    assert_eq!(strings[1], "?");
    assert!(strings[3].starts_with("FILE:"));
    // Every fixture that is plain text round-trips through a trained
    // tokenizer.
    let mut tokenizer = minbpe::BasicTokenizer::new();
    tokenizer.train("hello world hello world", 256 + 4, false).unwrap();
    for s in &strings[..3] {
        let ids = tokenizer.encode(s);
        assert_eq!(&tokenizer.decode(&ids).unwrap(), s);
    }
}
