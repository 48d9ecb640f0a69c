//! Shared fixtures for exercising the tokenizers: a handful of short
//! texts covering the empty string, a single character, mixed scripts and
//! a file reference a caller may resolve before encoding.

use vstd::prelude::*;

use vstd::string::StringExecFns;

verus! {

/// A few strings to test the tokenizers on: the empty string, a single
/// character, a small mixed-script string, and a file reference resolved
/// by the caller.
pub fn test_strings() -> (r: Vec<String>)
    ensures
        r@.len() == 4,
        r.deep_view() == seq![
            ""@,
            "?"@,
            "hello world!!!? (\u{c548}\u{b155}\u{d558}\u{c138}\u{c694}!) lol123 \u{1f609}"@,
            "FILE:../tests/taylorswift.txt"@,
        ],
{
    let mut r: Vec<String> = Vec::new();
    r.push(String::from_str(""));
    r.push(String::from_str("?"));
    r.push(
        String::from_str("hello world!!!? (\u{c548}\u{b155}\u{d558}\u{c138}\u{c694}!) lol123 \u{1f609}"),
    );
    r.push(String::from_str("FILE:../tests/taylorswift.txt"));
    proof {
        assert(r.deep_view() =~= seq![
            ""@,
            "?"@,
            "hello world!!!? (\u{c548}\u{b155}\u{d558}\u{c138}\u{c694}!) lol123 \u{1f609}"@,
            "FILE:../tests/taylorswift.txt"@,
        ]);
    }
    r
}

} // verus!
