//! The persisted model format and token rendering: a line-oriented text
//! format holding a version marker, the split pattern, the special tokens
//! and the merges in replay order; and the human-readable escaping used by
//! the vocabulary listing.

use vstd::prelude::*;

use crate::base::lossy_of;
use crate::base::lossy_string;
use crate::base::Token;
use crate::base::TokenizerError;
use crate::base::vocab_view;
use vstd::string::StrSliceExecFns;
use vstd::string::StringExecFns;

verus! {

/// Index of the first occurrence of `c`, or -1 if there is none.
pub open spec fn find_char(t: Seq<char>, c: char) -> int
    decreases t.len(),
{
    if t.len() == 0 {
        -1
    } else if t[0] == c {
        0
    } else {
        let r = find_char(t.drop_first(), c);
        if r < 0 {
            -1
        } else {
            r + 1
        }
    }
}

/// `find_char` finds the first occurrence, and -1 means absence.
pub proof fn lemma_find_char(t: Seq<char>, c: char)
    ensures
        -1 <= find_char(t, c) < t.len(),
        find_char(t, c) >= 0 ==> t[find_char(t, c)] == c,
        forall|j: int| 0 <= j < find_char(t, c) ==> t[j] != c,
        find_char(t, c) == -1 ==> forall|j: int| 0 <= j < t.len() ==> t[j] != c,
    decreases t.len(),
{
    if t.len() == 0 {
    } else if t[0] == c {
    } else {
        lemma_find_char(t.drop_first(), c);
        assert forall|j: int| 0 <= j < t.len() && t[j] == c implies j > 0 && t.drop_first()[j
            - 1] == c by {
            assert(t.drop_first()[j - 1] == t[j]);
        }
    }
}

/// The text split at newlines: each line without its terminator, a final
/// piece only when nonempty.
pub open spec fn spec_lines(t: Seq<char>) -> Seq<Seq<char>>
    decreases t.len(),
{
    if t.len() == 0 {
        Seq::empty()
    } else {
        let i = find_char(t, '\n');
        if i < 0 {
            seq![t]
        } else if 0 <= i < t.len() {
            seq![t.take(i)] + spec_lines(t.skip(i + 1))
        } else {
            seq![t]
        }
    }
}

/// Splits a text into its lines at newline characters.
pub fn split_lines(text: &str) -> (r: Vec<String>)
    ensures
        r.deep_view() == spec_lines(text@),
{
    let tchars = crate::special::str_chars(text);
    let tlen = tchars.len();
    let mut r: Vec<String> = Vec::new();
    let mut start: usize = 0;
    proof {
        assert(tchars@.skip(0) =~= tchars@);
    }
    loop
        invariant
            tlen == tchars@.len(),
            tchars@ == text@,
            start <= tlen,
            spec_lines(text@) == r.deep_view() + spec_lines(tchars@.skip(start as int)),
        decreases tlen - start,
    {
        let ghost suffix = tchars@.skip(start as int);
        if start == tlen {
            proof {
                assert(suffix.len() == 0);
                assert(r.deep_view() + spec_lines(suffix) =~= r.deep_view());
            }
            return r;
        }
        // Find the next newline.
        let mut i: usize = start;
        loop
            invariant
                start <= i <= tlen == tchars@.len(),
                forall|j: int| start <= j < i ==> tchars@[j] != '\n',
            ensures
                start <= i <= tlen,
                forall|j: int| start <= j < i ==> tchars@[j] != '\n',
                i < tlen ==> tchars@[i as int] == '\n',
            decreases tlen - i,
        {
            if i == tlen {
                break ;
            }
            if tchars[i] == '\n' {
                break ;
            }
            i += 1;
        }
        proof {
            lemma_find_char(suffix, '\n');
            if i < tlen {
                assert(tchars@[i as int] == '\n');
                assert(suffix[i - start] == '\n');
                let fc = find_char(suffix, '\n');
                assert(fc != -1);
                if fc < i - start {
                    assert(suffix[fc] == '\n');
                    assert(tchars@[fc + start] == '\n');
                }
                if fc > i - start {
                    assert(suffix[i - start] != '\n');
                }
                assert(fc == i - start);
            } else {
                let fc = find_char(suffix, '\n');
                if fc >= 0 {
                    assert(suffix[fc] == '\n');
                    assert(tchars@[fc + start] == '\n');
                }
                assert(fc == -1);
            }
        }
        let ghost pre = r.deep_view();
        let piece = text.substring_char(start, i);
        r.push(piece.to_owned());
        proof {
            assert(piece@ == text@.subrange(start as int, i as int));
            assert(r.deep_view() =~= pre.push(piece@));
            if i < tlen {
                assert(suffix.take(i - start) =~= piece@);
                assert(suffix.skip(i - start + 1) =~= tchars@.skip(i as int + 1));
                assert(spec_lines(suffix) == seq![piece@] + spec_lines(
                    tchars@.skip(i as int + 1),
                ));
                assert(pre + (seq![piece@] + spec_lines(tchars@.skip(i as int + 1)))
                    =~= r.deep_view() + spec_lines(tchars@.skip(i as int + 1)));
            } else {
                assert(suffix =~= piece@);
                assert(spec_lines(suffix) == seq![piece@]);
                assert(pre + seq![piece@] =~= r.deep_view());
                assert(tchars@.skip(i as int).len() == 0);
                assert(r.deep_view() + spec_lines(tchars@.skip(i as int)) =~= r.deep_view());
            }
        }
        if i == tlen {
            return r;
        }
        start = i + 1;
    }
}

// ---------------------------------------------------------------------------
// Decimal numbers.
// ---------------------------------------------------------------------------

/// Whether `c` is a decimal digit.
pub open spec fn is_digit(c: char) -> bool {
    48 <= c as u32 <= 57
}

/// Whether every character is a decimal digit.
pub open spec fn all_digits(s: Seq<char>) -> bool {
    forall|i: int| 0 <= i < s.len() ==> is_digit(#[trigger] s[i])
}

/// The number the digit string stands for.
pub open spec fn digits_val(s: Seq<char>) -> int
    decreases s.len(),
{
    if s.len() == 0 {
        0
    } else {
        digits_val(s.drop_last()) * 10 + (s.last() as u32 - 48)
    }
}

/// The token a digit line stands for: nothing when empty, not all digits,
/// or out of the token range.
pub open spec fn spec_parse_token(s: Seq<char>) -> Option<Token> {
    if s.len() > 0 && all_digits(s) && digits_val(s) <= Token::MAX {
        Some(digits_val(s) as Token)
    } else {
        None
    }
}

/// A longer digit string stands for at least as large a number.
proof fn lemma_digits_val_monotone(s: Seq<char>, i: int)
    requires
        0 <= i <= s.len(),
        all_digits(s),
    ensures
        digits_val(s.take(i)) <= digits_val(s),
        digits_val(s) >= 0,
    decreases s.len() - i,
{
    if i < s.len() {
        lemma_digits_val_nonneg(s.take(i));
        lemma_digits_val_monotone(s, i + 1);
        assert(s.take(i + 1).drop_last() =~= s.take(i));
        assert(s.take(i + 1).last() == s[i]);
        assert(is_digit(s[i]));
        lemma_digits_val_nonneg(s.take(i));
        assert(digits_val(s.take(i + 1)) == digits_val(s.take(i)) * 10 + (s[i] as u32 - 48));
        assert(digits_val(s.take(i)) <= digits_val(s.take(i)) * 10) by (nonlinear_arith)
            requires
                digits_val(s.take(i)) >= 0,
        ;
    } else {
        assert(s.take(i) =~= s);
        lemma_digits_val_nonneg(s);
    }
}

/// A digit string never stands for a negative number.
proof fn lemma_digits_val_nonneg(s: Seq<char>)
    requires
        all_digits(s),
    ensures
        digits_val(s) >= 0,
    decreases s.len(),
{
    if s.len() > 0 {
        assert(all_digits(s.drop_last())) by {
            assert(forall|i: int|
                0 <= i < s.drop_last().len() ==> #[trigger] s.drop_last()[i] == s[i]);
        }
        lemma_digits_val_nonneg(s.drop_last());
        assert(is_digit(s.last()));
        assert(digits_val(s.drop_last()) * 10 >= 0) by (nonlinear_arith)
            requires
                digits_val(s.drop_last()) >= 0,
        ;
    }
}

/// Parses a nonnegative decimal token id from the characters.
pub fn parse_token_chars(v: &Vec<char>) -> (r: Option<Token>)
    ensures
        r == spec_parse_token(v@),
        r is Some ==> r.unwrap() >= 0,
{
    let n = v.len();
    if n == 0 {
        return None;
    }
    let mut val: i32 = 0;
    let mut i: usize = 0;
    while i < n
        invariant
            n == v@.len(),
            i <= n,
            all_digits(v@.take(i as int)),
            0 <= val,
            val == digits_val(v@.take(i as int)),
        decreases n - i,
    {
        let c = v[i];
        let code = c as u32;
        if code < 48 || code > 57 {
            proof {
                assert(!is_digit(v@[i as int]));
                assert(!all_digits(v@));
            }
            return None;
        }
        let d = (code - 48) as i32;
        if val > (Token::MAX - d) / 10 {
            proof {
                assert(v@.take(i as int + 1).drop_last() =~= v@.take(i as int));
                assert(v@.take(i as int + 1).last() == v@[i as int]);
                assert(digits_val(v@.take(i as int + 1)) == val * 10 + d);
                assert(val * 10 + d > Token::MAX) by (nonlinear_arith)
                    requires
                        val > (Token::MAX - d) / 10,
                        0 <= d <= 9,
                        val >= 0,
                ;
                assert(all_digits(v@.take(i as int + 1)));
                if all_digits(v@) {
                    lemma_digits_val_monotone(v@, i as int + 1);
                    assert(v@.take(v@.len() as int) =~= v@);
                }
            }
            return None;
        }
        proof {
            assert(val * 10 + d <= Token::MAX) by (nonlinear_arith)
                requires
                    val <= (Token::MAX - d) / 10,
                    0 <= d <= 9,
                    val >= 0,
            ;
        }
        val = val * 10 + d;
        proof {
            assert(v@.take(i as int + 1).drop_last() =~= v@.take(i as int));
            assert(v@.take(i as int + 1).last() == v@[i as int]);
        }
        i += 1;
    }
    proof {
        assert(v@.take(n as int) =~= v@);
    }
    Some(val)
}

/// The decimal digits of a nonnegative number.
pub open spec fn spec_dec(n: int) -> Seq<char>
    decreases n,
{
    if n <= 0 {
        seq![48 as char]
    } else if n < 10 {
        seq![(48 + n) as char]
    } else {
        spec_dec(n / 10) + seq![(48 + n % 10) as char]
    }
}

/// One decimal digit as text.
fn digit_str(d: u32) -> (r: &'static str)
    requires
        d < 10,
    ensures
        r@ =~= seq![(48 + d) as char],
{
    let digits = "0123456789";
    proof {
        reveal_strlit("0123456789");
    }
    let r = digits.substring_ascii(d as usize, d as usize + 1);
    proof {
        assert(r@ =~= seq![digits@[d as int]]);
        assert(digits@[d as int] == (48 + d) as char) by {
            if d == 0 {
                assert(digits@[0] == '0');
            } else if d == 1 {
                assert(digits@[1] == '1');
            } else if d == 2 {
                assert(digits@[2] == '2');
            } else if d == 3 {
                assert(digits@[3] == '3');
            } else if d == 4 {
                assert(digits@[4] == '4');
            } else if d == 5 {
                assert(digits@[5] == '5');
            } else if d == 6 {
                assert(digits@[6] == '6');
            } else if d == 7 {
                assert(digits@[7] == '7');
            } else if d == 8 {
                assert(digits@[8] == '8');
            } else {
                assert(digits@[9] == '9');
            }
        }
    }
    r
}

/// A nonnegative token id rendered in decimal.
pub fn render_dec(n: Token) -> (r: String)
    requires
        n >= 0,
    ensures
        r@ == spec_dec(n as int),
    decreases n,
{
    if n < 10 {
        let mut s = String::new();
        s.append(digit_str(n as u32));
        proof {
            assert(s@ =~= spec_dec(n as int));
        }
        s
    } else {
        let mut s = render_dec(n / 10);
        s.append(digit_str((n % 10) as u32));
        proof {
            assert(s@ =~= spec_dec(n as int));
        }
        s
    }
}

/// Rendering a number and parsing it back yields the number: the decimal
/// digits are digits, and their value is the number itself.
pub proof fn lemma_dec_round_trip(n: int)
    requires
        0 <= n <= Token::MAX,
    ensures
        spec_parse_token(spec_dec(n)) == Some(n as Token),
    decreases n,
{
    lemma_dec_digits(n);
    assert(digits_val(spec_dec(n)) == n) by {
        lemma_dec_val(n);
    }
}

/// The decimal rendering consists of digits.
proof fn lemma_dec_digits(n: int)
    requires
        n >= 0,
    ensures
        spec_dec(n).len() > 0,
        all_digits(spec_dec(n)),
    decreases n,
{
    if n >= 10 {
        lemma_dec_digits(n / 10);
        assert(0 <= n % 10 <= 9);
        assert forall|i: int| 0 <= i < spec_dec(n).len() implies is_digit(#[trigger] spec_dec(n)[i]) by {
            if i < spec_dec(n / 10).len() {
                assert(spec_dec(n)[i] == spec_dec(n / 10)[i]);
            } else {
                assert(spec_dec(n)[i] == (48 + n % 10) as char);
            }
        }
    } else {
        assert(0 <= n <= 9);
    }
}

/// The decimal rendering stands for the number itself.
proof fn lemma_dec_val(n: int)
    requires
        n >= 0,
    ensures
        digits_val(spec_dec(n)) == n,
    decreases n,
{
    if n >= 10 {
        lemma_dec_val(n / 10);
        assert(spec_dec(n).drop_last() =~= spec_dec(n / 10));
        assert(spec_dec(n).last() == (48 + n % 10) as char);
        assert(((48 + n % 10) as char) as u32 == 48 + n % 10) by {
            assert(0 <= n % 10 <= 9);
        }
        assert(digits_val(spec_dec(n)) == (n / 10) * 10 + n % 10);
        assert(n == (n / 10) * 10 + n % 10);
    } else {
        assert(spec_dec(n).drop_last() =~= Seq::<char>::empty());
        assert(digits_val(Seq::<char>::empty()) == 0);
        assert(((48 + n) as char) as u32 == 48 + n);
    }
}

// ---------------------------------------------------------------------------
// Token rendering for human inspection.
// ---------------------------------------------------------------------------

/// Whether `c` is a control character (the Unicode category of control
/// codes).
pub open spec fn is_control_char(c: char) -> bool {
    {
        let v = c as u32;
        (v < 32) || ((127 <= v) && (v < 160))
    }
}

/// One hexadecimal digit.
pub open spec fn spec_hex_digit(d: int) -> char {
    if d < 10 {
        (48 + d) as char
    } else {
        (87 + d) as char
    }
}

/// A value below 2^16 as four hexadecimal digits.
pub open spec fn spec_hex4(v: int) -> Seq<char> {
    seq![
        spec_hex_digit(v / 4096 % 16),
        spec_hex_digit(v / 256 % 16),
        spec_hex_digit(v / 16 % 16),
        spec_hex_digit(v % 16),
    ]
}

/// A character rendered for inspection: control characters become their
/// four-digit Unicode escape, everything else stands as it is.
pub open spec fn spec_escape_char(c: char) -> Seq<char> {
    if is_control_char(c) {
        seq!['\\', 'u'] + spec_hex4(c as u32 as int)
    } else {
        seq![c]
    }
}

/// A text with every control character replaced by its Unicode escape.
pub open spec fn spec_replace_control(s: Seq<char>) -> Seq<char>
    decreases s.len(),
{
    if s.len() == 0 {
        Seq::empty()
    } else {
        spec_escape_char(s[0]) + spec_replace_control(s.drop_first())
    }
}

/// One hexadecimal digit as text.
fn hex_digit_str(d: u32) -> (r: &'static str)
    requires
        d < 16,
    ensures
        r@ =~= seq![spec_hex_digit(d as int)],
{
    let digits = "0123456789abcdef";
    proof {
        reveal_strlit("0123456789abcdef");
    }
    let r = digits.substring_ascii(d as usize, d as usize + 1);
    proof {
        assert(r@ =~= seq![digits@[d as int]]);
        assert(digits@[d as int] == spec_hex_digit(d as int)) by {
            if d == 0 {
                assert(digits@[0] == '0');
            } else if d == 1 {
                assert(digits@[1] == '1');
            } else if d == 2 {
                assert(digits@[2] == '2');
            } else if d == 3 {
                assert(digits@[3] == '3');
            } else if d == 4 {
                assert(digits@[4] == '4');
            } else if d == 5 {
                assert(digits@[5] == '5');
            } else if d == 6 {
                assert(digits@[6] == '6');
            } else if d == 7 {
                assert(digits@[7] == '7');
            } else if d == 8 {
                assert(digits@[8] == '8');
            } else if d == 9 {
                assert(digits@[9] == '9');
            } else if d == 10 {
                assert(digits@[10] == 'a');
            } else if d == 11 {
                assert(digits@[11] == 'b');
            } else if d == 12 {
                assert(digits@[12] == 'c');
            } else if d == 13 {
                assert(digits@[13] == 'd');
            } else if d == 14 {
                assert(digits@[14] == 'e');
            } else {
                assert(digits@[15] == 'f');
            }
        }
    }
    r
}

/// Replaces control characters in the given text with their four-digit
/// Unicode escape sequences, leaving all other characters as they stand.
pub fn replace_control_characters(s: &str) -> (r: String)
    ensures
        r@ == spec_replace_control(s@),
{
    let n = s.unicode_len();
    let mut out = String::new();
    let mut i: usize = 0;
    proof {
        assert(s@.skip(0) =~= s@);
        assert(out@ + spec_replace_control(s@) =~= spec_replace_control(s@));
    }
    while i < n
        invariant
            n == s@.len(),
            i <= n,
            spec_replace_control(s@) == out@ + spec_replace_control(s@.skip(i as int)),
        decreases n - i,
    {
        let ghost pre = out@;
        let ghost suffix = s@.skip(i as int);
        proof {
            assert(suffix[0] == s@[i as int]);
            assert(suffix.drop_first() =~= s@.skip(i as int + 1));
        }
        let c = s.get_char(i);
        let code = c as u32;
        if code < 32 || (127 <= code && code < 160) {
            let esc = "\\u";
            proof {
                reveal_strlit("\\u");
                assert(esc@ =~= seq!['\\', 'u']);
            }
            out.append(esc);
            out.append(hex_digit_str(code / 4096));
            out.append(hex_digit_str(code / 256 % 16));
            out.append(hex_digit_str(code / 16 % 16));
            out.append(hex_digit_str(code % 16));
            proof {
                assert(code / 4096 % 16 == code / 4096);
                assert(out@ =~= pre + spec_escape_char(c));
            }
        } else {
            let piece = s.substring_char(i, i + 1);
            out.append(piece);
            proof {
                assert(piece@ =~= seq![c]);
                assert(out@ =~= pre + spec_escape_char(c));
            }
        }
        proof {
            assert(pre + (spec_escape_char(suffix[0]) + spec_replace_control(suffix.drop_first()))
                =~= out@ + spec_replace_control(s@.skip(i as int + 1)));
        }
        i += 1;
    }
    proof {
        assert(s@.skip(n as int) =~= Seq::<char>::empty());
        assert(out@ + Seq::<char>::empty() =~= out@);
    }
    out
}

/// Pretty-prints a token: its bytes rendered as text with invalid UTF-8
/// replaced, and control characters escaped.
pub fn render_token(token: &Vec<u8>) -> (r: String)
    ensures
        r@ == spec_replace_control(lossy_of(token@)),
{
    let s = lossy_string(token);
    replace_control_characters(s.as_str())
}

// ---------------------------------------------------------------------------
// The persisted model format.
// ---------------------------------------------------------------------------

/// The fixed version marker heading every model file.
pub open spec fn spec_model_marker() -> Seq<char> {
    "minbpe v1"@
}

/// One special-token line: the name, a space, the id in decimal.
pub open spec fn spec_special_line(name: Seq<char>, id: Token) -> Seq<char> {
    name + seq![' '] + spec_dec(id as int) + seq!['\n']
}

/// The special-token lines, in registration order.
pub open spec fn spec_render_specials(sp: Seq<(Seq<char>, Token)>) -> Seq<char>
    decreases sp.len(),
{
    if sp.len() == 0 {
        Seq::empty()
    } else {
        spec_special_line(sp[0].0, sp[0].1) + spec_render_specials(sp.drop_first())
    }
}

/// One merge line: the two parent ids in decimal, space-separated. The
/// merge's own token is positional and not stored.
pub open spec fn spec_merge_line(p: crate::base::Pair) -> Seq<char> {
    spec_dec(p.0 as int) + seq![' '] + spec_dec(p.1 as int) + seq!['\n']
}

/// The merge lines, in replay order.
pub open spec fn spec_render_merges(m: Seq<(crate::base::Pair, Token)>) -> Seq<char>
    decreases m.len(),
{
    if m.len() == 0 {
        Seq::empty()
    } else {
        spec_merge_line(m[0].0) + spec_render_merges(m.drop_first())
    }
}

/// The whole model text: the version marker, the pattern, the number of
/// special tokens, one line per special token, then one line per merge in
/// replay order.
pub open spec fn spec_render_model(
    pattern: Seq<char>,
    sp: Seq<(Seq<char>, Token)>,
    m: Seq<(crate::base::Pair, Token)>,
) -> Seq<char> {
    spec_model_marker() + seq!['\n'] + pattern + seq!['\n'] + spec_dec(sp.len() as int)
        + seq!['\n'] + spec_render_specials(sp) + spec_render_merges(m)
}

/// A newline as text.
fn newline_str() -> (r: &'static str)
    ensures
        r@ =~= seq!['\n'],
{
    let r = "\n";
    proof {
        reveal_strlit("\n");
    }
    r
}

/// A space as text.
fn space_str() -> (r: &'static str)
    ensures
        r@ =~= seq![' '],
{
    let r = " ";
    proof {
        reveal_strlit(" ");
    }
    r
}

impl crate::regex::RegexTokenizerStruct {
    /// Serializes the tokenizer's model: the version marker, the split
    /// pattern, the special tokens and the merges in replay order, one
    /// line each. Loading this text restores an equivalent tokenizer.
    pub fn save(&self) -> (r: String)
        requires
            self.wf(),
            self.special_tokens@.len() <= Token::MAX,
        ensures
            r@ == spec_render_model(
                self.pattern@,
                crate::base::specials_view(self.special_tokens@),
                self.merges@,
            ),
    {
        let ghost sp = crate::base::specials_view(self.special_tokens@);
        let mut out = String::from_str("minbpe v1");
        proof {
            assert(out@ == spec_model_marker());
        }
        out.append(newline_str());
        out.append(self.pattern.as_str());
        out.append(newline_str());
        let ns = self.special_tokens.len();
        let count = render_dec(ns as Token);
        out.append(count.as_str());
        out.append(newline_str());
        proof {
            assert(out@ =~= spec_model_marker() + seq!['\n'] + self.pattern@ + seq!['\n']
                + spec_dec(sp.len() as int) + seq!['\n']);
            assert(sp.skip(0) =~= sp);
        }
        let ghost head = out@;
        let mut i: usize = 0;
        while i < ns
            invariant
                self.wf(),
                sp == crate::base::specials_view(self.special_tokens@),
                ns == self.special_tokens@.len(),
                i <= ns,
                head + spec_render_specials(sp) == out@ + spec_render_specials(
                    sp.skip(i as int),
                ),
            decreases ns - i,
        {
            let ghost pre = out@;
            let ghost rest = sp.skip(i as int);
            out.append(self.special_tokens[i].0.as_str());
            out.append(space_str());
            proof {
                assert(self.special_tokens@[i as int].1 >= 256);
            }
            let idtext = render_dec(self.special_tokens[i].1);
            out.append(idtext.as_str());
            out.append(newline_str());
            proof {
                assert(rest[0] == sp[i as int]);
                assert(rest.drop_first() =~= sp.skip(i as int + 1));
                assert(out@ =~= pre + spec_special_line(sp[i as int].0, sp[i as int].1));
                assert(pre + (spec_special_line(rest[0].0, rest[0].1) + spec_render_specials(
                    rest.drop_first(),
                )) =~= out@ + spec_render_specials(sp.skip(i as int + 1)));
            }
            i += 1;
        }
        proof {
            assert(sp.skip(ns as int) =~= Seq::<(Seq<char>, Token)>::empty());
            assert(out@ + Seq::<char>::empty() =~= out@);
            assert(out@ == head + spec_render_specials(sp));
            assert(self.merges@.skip(0) =~= self.merges@);
        }
        let ghost head2 = out@;
        let nm = self.merges.len();
        let mut k: usize = 0;
        while k < nm
            invariant
                self.wf(),
                nm == self.merges@.len(),
                k <= nm,
                head2 + spec_render_merges(self.merges@) == out@ + spec_render_merges(
                    self.merges@.skip(k as int),
                ),
            decreases nm - k,
        {
            let ghost pre = out@;
            let ghost rest = self.merges@.skip(k as int);
            let pair = self.merges[k].0;
            proof {
                assert(crate::base::merge_entry_wf(self.merges@, k as int));
            }
            let a = render_dec(pair.0);
            out.append(a.as_str());
            out.append(space_str());
            let b = render_dec(pair.1);
            out.append(b.as_str());
            out.append(newline_str());
            proof {
                assert(rest[0] == self.merges@[k as int]);
                assert(rest.drop_first() =~= self.merges@.skip(k as int + 1));
                assert(out@ =~= pre + spec_merge_line(self.merges@[k as int].0));
                assert(pre + (spec_merge_line(rest[0].0) + spec_render_merges(rest.drop_first()))
                    =~= out@ + spec_render_merges(self.merges@.skip(k as int + 1)));
            }
            k += 1;
        }
        proof {
            assert(self.merges@.skip(nm as int) =~= Seq::<(crate::base::Pair, Token)>::empty());
            assert(out@ + Seq::<char>::empty() =~= out@);
        }
        out
    }
}

/// A line split at its first space: the part before and the part after,
/// or nothing when there is no space.
pub open spec fn spec_split_space(line: Seq<char>) -> Option<(Seq<char>, Seq<char>)> {
    let i = find_char(line, ' ');
    if i >= 0 {
        Some((line.take(i), line.skip(i + 1)))
    } else {
        None
    }
}

/// What a special-token line stands for: a nonempty name before the first
/// space, a decimal id after it.
pub open spec fn spec_parse_special_line(line: Seq<char>) -> Option<(Seq<char>, Token)> {
    match spec_split_space(line) {
        Some(nr) => if nr.0.len() > 0 {
            match spec_parse_token(nr.1) {
                Some(id) => Some((nr.0, id)),
                None => None,
            }
        } else {
            None
        },
        None => None,
    }
}

/// What a merge line stands for: two decimal parent ids, space-separated.
pub open spec fn spec_parse_merge_line(line: Seq<char>) -> Option<crate::base::Pair> {
    match spec_split_space(line) {
        Some(ab) => match (spec_parse_token(ab.0), spec_parse_token(ab.1)) {
            (Some(a), Some(b)) => Some((a, b)),
            _ => None,
        },
        None => None,
    }
}

/// The special-token table the lines from `idx` on stand for, `n` entries.
pub open spec fn spec_parse_specials(lines: Seq<Seq<char>>, idx: int, n: int) -> Option<
    Seq<(Seq<char>, Token)>,
>
    decreases n,
{
    if n <= 0 {
        Some(Seq::empty())
    } else if 0 <= idx < lines.len() {
        match spec_parse_special_line(lines[idx]) {
            Some(e) => match spec_parse_specials(lines, idx + 1, n - 1) {
                Some(rest) => Some(seq![e] + rest),
                None => None,
            },
            None => None,
        }
    } else {
        None
    }
}

/// The merge table the lines from `idx` on stand for: ids are positional,
/// assigned sequentially from `next`, and each parent must already be a
/// raw byte or an earlier merge token.
pub open spec fn spec_parse_merges(lines: Seq<Seq<char>>, idx: int, next: Token) -> Option<
    Seq<(crate::base::Pair, Token)>,
>
    decreases lines.len() - idx,
{
    if idx < 0 || idx >= lines.len() {
        Some(Seq::empty())
    } else if next == Token::MAX {
        None
    } else {
        match spec_parse_merge_line(lines[idx]) {
            Some(p) => if 0 <= p.0 < next && 0 <= p.1 < next {
                match spec_parse_merges(lines, idx + 1, (next + 1) as Token) {
                    Some(rest) => Some(seq![(p, next)] + rest),
                    None => None,
                }
            } else {
                None
            },
            None => None,
        }
    }
}

/// Whether a parsed special-token table is acceptable against `nm` merges:
/// names distinct, ids distinct, every id past the positional merge ids.
pub open spec fn spec_specials_ok(sp: Seq<(Seq<char>, Token)>, nm: int) -> bool {
    &&& forall|i: int| 0 <= i < sp.len() ==> (#[trigger] sp[i]).1 >= 256 + nm
    &&& forall|i: int, j: int|
        0 <= i < j < sp.len() ==> (#[trigger] sp[i]).0 != (#[trigger] sp[j]).0 && sp[i].1
            != sp[j].1
}

/// What a model text stands for: the pattern, the special tokens and the
/// merges, or nothing when any line is malformed, the version marker is
/// wrong, a header is missing, a merge parent is out of range, or the
/// special tokens collide.
pub open spec fn spec_parse_model(t: Seq<char>) -> Option<
    (Seq<char>, Seq<(Seq<char>, Token)>, Seq<(crate::base::Pair, Token)>),
> {
    let lines = spec_lines(t);
    if lines.len() < 3 {
        None
    } else if lines[0] != spec_model_marker() {
        None
    } else {
        match spec_parse_token(lines[2]) {
            None => None,
            Some(n) => if lines.len() - 3 < n {
                None
            } else {
                match spec_parse_specials(lines, 3, n as int) {
                    None => None,
                    Some(sp) => match spec_parse_merges(lines, 3 + n, 256) {
                        None => None,
                        Some(m) => if spec_specials_ok(sp, m.len() as int) {
                            Some((lines[1], sp, m))
                        } else {
                            None
                        },
                    },
                }
            },
        }
    }
}

/// The first space of a line, as a character index.
pub(crate) fn find_space(lchars: &Vec<char>) -> (r: Option<usize>)
    ensures
        match r {
            Some(i) => find_char(lchars@, ' ') == i && i < lchars@.len(),
            None => find_char(lchars@, ' ') == -1,
        },
{
    let n = lchars.len();
    let mut i: usize = 0;
    while i < n
        invariant
            n == lchars@.len(),
            i <= n,
            forall|j: int| 0 <= j < i ==> lchars@[j] != ' ',
        decreases n - i,
    {
        if lchars[i] == ' ' {
            proof {
                lemma_find_char(lchars@, ' ');
                let fc = find_char(lchars@, ' ');
                assert(fc != -1);
                if fc < i {
                    assert(lchars@[fc] == ' ');
                }
                if fc > i {
                    assert(lchars@[i as int] != ' ');
                }
            }
            return Some(i);
        }
        i += 1;
    }
    proof {
        lemma_find_char(lchars@, ' ');
        let fc = find_char(lchars@, ' ');
        if fc >= 0 {
            assert(lchars@[fc] == ' ');
        }
    }
    None
}

impl crate::regex::RegexTokenizerStruct {
    /// Loads a tokenizer from persisted model text. Any malformed line,
    /// wrong version marker, missing header, out-of-range merge parent or
    /// colliding special token is `FormatError`; a pattern the regex
    /// engine rejects is `ConfigurationError`; nothing is installed on any
    /// error. Merge tokens are positional: assigned sequentially from 256,
    /// one per line, in file order.
    #[verifier::loop_isolation(false)]
    pub fn load(model: &str) -> (r: Result<crate::regex::RegexTokenizerStruct, TokenizerError>)
        ensures
            ({
                match spec_parse_model(model@) {
                    None => r == Result::<crate::regex::RegexTokenizerStruct, TokenizerError>::Err(
                        TokenizerError::FormatError,
                    ),
                    Some(parts) => if crate::regex::regex_ok(parts.0) {
                        &&& r is Ok
                        &&& r.unwrap().wf()
                        &&& r.unwrap().pattern@ == parts.0
                        &&& crate::base::specials_view(r.unwrap().special_tokens@) == parts.1
                        &&& r.unwrap().merges@ == parts.2
                    } else {
                        r == Result::<crate::regex::RegexTokenizerStruct, TokenizerError>::Err(
                            TokenizerError::ConfigurationError,
                        )
                    },
                }
            }),
    {
        let ghost lv = spec_lines(model@);
        let lines = split_lines(model);
        proof {
            assert(lines.deep_view() == lv);
            assert(lines@.len() == lv.len());
        }
        if lines.len() < 3 {
            return Err(TokenizerError::FormatError);
        }
        let marker = String::from_str("minbpe v1");
        proof {
            assert(lv[0] =~= lines@[0]@);
        }
        if !lines[0].eq(&marker) {
            proof {
                assert(lv[0] != spec_model_marker());
            }
            return Err(TokenizerError::FormatError);
        }
        proof {
            assert(lv[2] =~= lines@[2]@);
        }
        let nchars = crate::special::str_chars(lines[2].as_str());
        let n = match parse_token_chars(&nchars) {
            Some(v) => v,
            None => {
                return Err(TokenizerError::FormatError);
            },
        };
        if lines.len() - 3 < n as usize {
            return Err(TokenizerError::FormatError);
        }
        // The special-token lines.
        let nsp = n as usize;
        let mut specials: Vec<(String, Token)> = Vec::new();
        let mut j: usize = 0;
        proof {
            assert(crate::base::specials_view(specials@) =~= Seq::<(Seq<char>, Token)>::empty());
        }
        while j < nsp
            invariant
                lines.deep_view() == lv,
                3 + nsp <= lines@.len(),
                nsp == n as int,
                j <= nsp,
                spec_parse_specials(lv, 3, n as int) == (match spec_parse_specials(
                    lv,
                    3 + j,
                    n - j,
                ) {
                    Some(rest) => Some(crate::base::specials_view(specials@) + rest),
                    None => None::<Seq<(Seq<char>, Token)>>,
                }),
                forall|e: int|
                    0 <= e < specials@.len() ==> (#[trigger] specials@[e]).0@.len() > 0,
            decreases nsp - j,
        {
            let ghost pre = crate::base::specials_view(specials@);
            let line = &lines[3 + j];
            let lchars = crate::special::str_chars(line.as_str());
            proof {
                assert(lv[3 + j] =~= lines@[3 + j as int]@);
                assert(lchars@ == lv[3 + j]);
            }
            let sp_idx = match find_space(&lchars) {
                Some(i) => i,
                None => {
                    proof {
                        assert(spec_split_space(lv[3 + j]) is None);
                        assert(spec_parse_special_line(lv[3 + j]) is None);
                    }
                    return Err(TokenizerError::FormatError);
                },
            };
            if sp_idx == 0 {
                proof {
                    assert(lv[3 + j].take(0) =~= Seq::<char>::empty());
                    assert(spec_parse_special_line(lv[3 + j]) is None);
                }
                return Err(TokenizerError::FormatError);
            }
            let llen = line.as_str().unicode_len();
            let name = line.as_str().substring_char(0, sp_idx);
            let rest = line.as_str().substring_char(sp_idx + 1, llen);
            let rest_chars = crate::special::str_chars(rest);
            proof {
                assert(name@ =~= lv[3 + j].take(sp_idx as int));
                assert(rest_chars@ =~= lv[3 + j].skip(sp_idx as int + 1));
            }
            let id = match parse_token_chars(&rest_chars) {
                Some(v) => v,
                None => {
                    proof {
                        assert(spec_parse_special_line(lv[3 + j]) is None);
                    }
                    return Err(TokenizerError::FormatError);
                },
            };
            specials.push((name.to_owned(), id));
            proof {
                assert(spec_parse_special_line(lv[3 + j]) == Some((name@, id)));
                assert(crate::base::specials_view(specials@) =~= pre.push((name@, id)));
                let rest_n = n - j;
                assert(rest_n >= 1);
                match spec_parse_specials(lv, 3 + j + 1, n - (j + 1)) {
                    Some(r2) => {
                        assert(spec_parse_specials(lv, 3 + j, rest_n) == Some(
                            seq![(name@, id)] + r2,
                        ));
                        assert(pre + (seq![(name@, id)] + r2) =~= crate::base::specials_view(
                            specials@,
                        ) + r2);
                    },
                    None => {
                        assert(spec_parse_specials(lv, 3 + j, rest_n) is None);
                    },
                }
            }
            j += 1;
        }
        proof {
            assert(spec_parse_specials(lv, 3 + nsp as int, 0) == Some(
                Seq::<(Seq<char>, Token)>::empty(),
            ));
            assert(crate::base::specials_view(specials@) + Seq::<(Seq<char>, Token)>::empty()
                =~= crate::base::specials_view(specials@));
            assert(spec_parse_specials(lv, 3, n as int) == Some(
                crate::base::specials_view(specials@),
            ));
        }
        // The merge lines: ids are positional from 256.
        let nlines = lines.len();
        let mut merges: Vec<(crate::base::Pair, Token)> = Vec::new();
        let mut k: usize = 3 + nsp;
        let mut next: Token = 256;
        while k < nlines
            invariant
                lines.deep_view() == lv,
                nlines == lines@.len(),
                3 + nsp <= k <= nlines,
                256 <= next <= Token::MAX,
                next == 256 + merges@.len(),
                spec_parse_merges(lv, 3 + nsp as int, 256) == (match spec_parse_merges(
                    lv,
                    k as int,
                    next,
                ) {
                    Some(rest) => Some(merges@ + rest),
                    None => None::<Seq<(crate::base::Pair, Token)>>,
                }),
                forall|e: int| 0 <= e < merges@.len() ==> (#[trigger] merges@[e]).1 == 256 + e,
                crate::base::merges_wf(merges@),
            decreases nlines - k,
        {
            let ghost pre = merges@;
            if next == Token::MAX {
                proof {
                    assert(spec_parse_merges(lv, k as int, next) is None);
                }
                return Err(TokenizerError::FormatError);
            }
            let line = &lines[k];
            let lchars = crate::special::str_chars(line.as_str());
            proof {
                assert(lv[k as int] =~= lines@[k as int]@);
                assert(lchars@ == lv[k as int]);
            }
            let sp_idx = match find_space(&lchars) {
                Some(i) => i,
                None => {
                    proof {
                        assert(spec_parse_merge_line(lv[k as int]) is None);
                        assert(spec_parse_merges(lv, k as int, next) is None);
                    }
                    return Err(TokenizerError::FormatError);
                },
            };
            let llen = line.as_str().unicode_len();
            let astr = line.as_str().substring_char(0, sp_idx);
            let bstr = line.as_str().substring_char(sp_idx + 1, llen);
            let achars = crate::special::str_chars(astr);
            let bchars = crate::special::str_chars(bstr);
            proof {
                assert(achars@ =~= lv[k as int].take(sp_idx as int));
                assert(bchars@ =~= lv[k as int].skip(sp_idx as int + 1));
            }
            let ab = match (parse_token_chars(&achars), parse_token_chars(&bchars)) {
                (Some(a), Some(b)) => (a, b),
                _ => {
                    proof {
                        assert(spec_parse_merge_line(lv[k as int]) is None);
                        assert(spec_parse_merges(lv, k as int, next) is None);
                    }
                    return Err(TokenizerError::FormatError);
                },
            };
            if ab.0 >= next || ab.1 >= next {
                proof {
                    assert(spec_parse_merges(lv, k as int, next) is None);
                }
                return Err(TokenizerError::FormatError);
            }
            merges.push((ab, next));
            proof {
                assert(spec_parse_merge_line(lv[k as int]) == Some(ab));
                match spec_parse_merges(lv, k as int + 1, (next + 1) as Token) {
                    Some(r2) => {
                        assert(spec_parse_merges(lv, k as int, next) == Some(
                            seq![(ab, next)] + r2,
                        ));
                        assert(pre + (seq![(ab, next)] + r2) =~= merges@ + r2);
                    },
                    None => {
                        assert(spec_parse_merges(lv, k as int, next) is None);
                    },
                }
                // The new entry is well-formed: parents resolve to a raw
                // byte or an earlier positional merge token.
                assert(crate::base::merges_wf(merges@)) by {
                    assert forall|e: int|
                        0 <= e < merges@.len() implies #[trigger] crate::base::merge_entry_wf(
                        merges@,
                        e,
                    ) by {
                        if e < pre.len() {
                            assert(crate::base::merge_entry_wf(pre, e));
                            assert forall|j2: int|
                                0 <= j2 < e implies (#[trigger] merges@[j2]).1 < merges@[e].1 by {
                                assert(pre[j2].1 < pre[e].1);
                            }
                            if pre[e].0.0 >= 256 {
                                let w = choose|w: int|
                                    0 <= w < e && #[trigger] pre[w].1 == pre[e].0.0;
                                assert(merges@[w].1 == merges@[e].0.0);
                            }
                            if pre[e].0.1 >= 256 {
                                let w = choose|w: int|
                                    0 <= w < e && #[trigger] pre[w].1 == pre[e].0.1;
                                assert(merges@[w].1 == merges@[e].0.1);
                            }
                        } else {
                            assert(merges@[e] == (ab, next));
                            if ab.0 >= 256 {
                                assert(merges@[ab.0 - 256].1 == ab.0);
                            }
                            if ab.1 >= 256 {
                                assert(merges@[ab.1 - 256].1 == ab.1);
                            }
                        }
                    }
                }
            }
            k += 1;
            next = next + 1;
        }
        proof {
            assert(spec_parse_merges(lv, nlines as int, next) == Some(
                Seq::<(crate::base::Pair, Token)>::empty(),
            ));
            assert(merges@ + Seq::<(crate::base::Pair, Token)>::empty() =~= merges@);
            assert(spec_parse_merges(lv, 3 + nsp as int, 256) == Some(merges@));
        }
        // The special tokens must be distinct and clear of the merge ids.
        let nm = merges.len();
        let ghost spv = crate::base::specials_view(specials@);
        let mut i2: usize = 0;
        while i2 < specials.len()
            invariant
                spv == crate::base::specials_view(specials@),
                nm == merges@.len(),
                nm <= Token::MAX - 256,
                i2 <= specials@.len(),
                forall|e: int| 0 <= e < i2 ==> (#[trigger] spv[e]).1 >= 256 + nm,
                forall|e: int, e2: int|
                    0 <= e < e2 < i2 ==> (#[trigger] spv[e]).0 != (#[trigger] spv[e2]).0
                        && spv[e].1 != spv[e2].1,
            decreases specials@.len() - i2,
        {
            let id = specials[i2].1;
            if id < 256 || ((id - 256) as usize) < nm {
                proof {
                    assert(spv[i2 as int].1 < 256 + nm);
                    assert(!spec_specials_ok(spv, nm as int)) by {
                        if spec_specials_ok(spv, nm as int) {
                            assert((#[trigger] spv[i2 as int]).1 >= 256 + nm);
                        }
                    }
                }
                return Err(TokenizerError::FormatError);
            }
            let mut j2: usize = 0;
            while j2 < i2
                invariant
                    spv == crate::base::specials_view(specials@),
                    j2 <= i2 < specials@.len(),
                    forall|e: int|
                        0 <= e < j2 ==> (#[trigger] spv[e]).0 != spv[i2 as int].0 && spv[e].1
                            != spv[i2 as int].1,
                decreases i2 - j2,
            {
                if specials[j2].0.eq(&specials[i2].0) {
                    proof {
                        assert(spv[j2 as int].0 == spv[i2 as int].0);
                        assert(!spec_specials_ok(spv, nm as int)) by {
                            if spec_specials_ok(spv, nm as int) {
                                assert((#[trigger] spv[j2 as int]).0 != (#[trigger] spv[i2 as int]).0);
                            }
                        }
                    }
                    return Err(TokenizerError::FormatError);
                }
                if specials[j2].1 == specials[i2].1 {
                    proof {
                        assert(spv[j2 as int].1 == spv[i2 as int].1);
                        assert(!spec_specials_ok(spv, nm as int)) by {
                            if spec_specials_ok(spv, nm as int) {
                                assert((#[trigger] spv[j2 as int]).1 != (#[trigger] spv[i2 as int]).1);
                            }
                        }
                    }
                    return Err(TokenizerError::FormatError);
                }
                j2 += 1;
            }
            i2 += 1;
        }
        proof {
            assert(spec_specials_ok(spv, nm as int));
            assert(spec_parse_model(model@) == Some((lv[1], spv, merges@)));
        }
        // The split pattern must compile.
        let pattern = lines[1].clone();
        proof {
            assert(pattern@ =~= lv[1]);
        }
        if !crate::regex::regex_compiles(pattern.as_str()) {
            return Err(TokenizerError::ConfigurationError);
        }
        let vocab = crate::base::build_vocab(&specials, &merges);
        proof {
            assert(crate::regex::specials_wf(spv));
            assert(crate::regex::specials_disjoint(spv, merges@)) by {
                assert forall|e: int, j3: int|
                    0 <= e < spv.len() && 0 <= j3 < merges@.len() implies (#[trigger] spv[e]).1
                    != (#[trigger] merges@[j3]).1 by {
                    assert(merges@[j3].1 == 256 + j3);
                    assert(spv[e].1 >= 256 + nm);
                }
            }
        }
        Ok(crate::regex::RegexTokenizerStruct { pattern, special_tokens: specials, merges, vocab })
    }
}

// ---------------------------------------------------------------------------
// Format round trip.
// ---------------------------------------------------------------------------

/// The first occurrence of `c` in `a`, a `c`, and anything after: the
/// occurrence is right after `a`.
proof fn lemma_find_char_concat(a: Seq<char>, c: char, rest: Seq<char>)
    requires
        forall|j: int| 0 <= j < a.len() ==> a[j] != c,
    ensures
        find_char(a + seq![c] + rest, c) == a.len(),
{
    let t = a + seq![c] + rest;
    lemma_find_char(t, c);
    assert(t[a.len() as int] == c);
    let fc = find_char(t, c);
    assert(fc != -1);
    if fc < a.len() {
        assert(t[fc] == a[fc]);
    }
    if fc > a.len() {
        assert(t[a.len() as int] != c);
    }
}

/// A newline-free piece, a newline, and anything after: the piece is the
/// first line, and the rest splits on its own.
pub proof fn lemma_lines_cons(a: Seq<char>, rest: Seq<char>)
    requires
        forall|j: int| 0 <= j < a.len() ==> a[j] != '\n',
    ensures
        spec_lines(a + seq!['\n'] + rest) == seq![a] + spec_lines(rest),
{
    let t = a + seq!['\n'] + rest;
    lemma_find_char_concat(a, '\n', rest);
    assert(t.len() > 0);
    assert(t.take(a.len() as int) =~= a);
    assert(t.skip(a.len() as int + 1) =~= rest);
}

/// Decimal digits contain neither a newline nor a space.
proof fn lemma_dec_plain(n: int)
    requires
        n >= 0,
    ensures
        forall|j: int|
            0 <= j < spec_dec(n).len() ==> (#[trigger] spec_dec(n)[j]) != '\n' && spec_dec(n)[j]
                != ' ',
{
    lemma_dec_digits(n);
    assert forall|j: int|
        0 <= j < spec_dec(n).len() implies (#[trigger] spec_dec(n)[j]) != '\n' && spec_dec(n)[j]
        != ' ' by {
        assert(is_digit(spec_dec(n)[j]));
        assert('\n' as u32 == 10);
        assert(' ' as u32 == 32);
    }
}

/// The body of each special-token line.
pub open spec fn spec_special_bodies(sp: Seq<(Seq<char>, Token)>) -> Seq<Seq<char>> {
    Seq::new(sp.len(), |i: int| sp[i].0 + seq![' '] + spec_dec(sp[i].1 as int))
}

/// The body of each merge line.
pub open spec fn spec_merge_bodies(m: Seq<(crate::base::Pair, Token)>) -> Seq<Seq<char>> {
    Seq::new(m.len(), |i: int| spec_dec(m[i].0.0 as int) + seq![' '] + spec_dec(m[i].0.1 as int))
}

/// Whether every special token can stand in the line format: name
/// nonempty, free of newlines and spaces, id nonnegative.
pub open spec fn specials_saveable(sp: Seq<(Seq<char>, Token)>) -> bool {
    forall|i: int|
        0 <= i < sp.len() ==> (#[trigger] sp[i]).0.len() > 0 && sp[i].1 >= 0 && (forall|j: int|
            0 <= j < sp[i].0.len() ==> (#[trigger] sp[i].0[j]) != '\n' && sp[i].0[j] != ' ')
}

/// The rendered special-token lines split into exactly their bodies,
/// whatever follows them.
proof fn lemma_lines_specials(sp: Seq<(Seq<char>, Token)>, tail: Seq<char>)
    requires
        specials_saveable(sp),
    ensures
        spec_lines(spec_render_specials(sp) + tail) == spec_special_bodies(sp) + spec_lines(tail),
    decreases sp.len(),
{
    if sp.len() == 0 {
        assert(spec_render_specials(sp) + tail =~= tail);
        assert(spec_special_bodies(sp) + spec_lines(tail) =~= spec_lines(tail));
    } else {
        let body = sp[0].0 + seq![' '] + spec_dec(sp[0].1 as int);
        let rest = spec_render_specials(sp.drop_first()) + tail;
        assert(spec_render_specials(sp) + tail =~= body + seq!['\n'] + rest);
        assert forall|j: int| 0 <= j < body.len() implies body[j] != '\n' by {
            lemma_dec_plain(sp[0].1 as int);
            if j < sp[0].0.len() {
                assert(body[j] == sp[0].0[j]);
            } else if j == sp[0].0.len() {
                assert(body[j] == ' ');
            } else {
                assert(body[j] == spec_dec(sp[0].1 as int)[j - sp[0].0.len() - 1]);
            }
        }
        lemma_lines_cons(body, rest);
        assert(specials_saveable(sp.drop_first())) by {
            assert forall|i: int|
                0 <= i < sp.drop_first().len() implies (#[trigger] sp.drop_first()[i]).0.len() > 0
                && sp.drop_first()[i].1 >= 0 && (forall|j: int|
                0 <= j < sp.drop_first()[i].0.len() ==> (#[trigger] sp.drop_first()[i].0[j])
                    != '\n' && sp.drop_first()[i].0[j] != ' ') by {
                assert(sp.drop_first()[i] == sp[i + 1]);
            }
        }
        lemma_lines_specials(sp.drop_first(), tail);
        assert(spec_special_bodies(sp) =~= seq![body] + spec_special_bodies(sp.drop_first()));
        assert(seq![body] + (spec_special_bodies(sp.drop_first()) + spec_lines(tail))
            =~= spec_special_bodies(sp) + spec_lines(tail));
    }
}

/// The rendered merge lines split into exactly their bodies.
proof fn lemma_lines_merges(m: Seq<(crate::base::Pair, Token)>)
    requires
        forall|i: int| 0 <= i < m.len() ==> (#[trigger] m[i]).0.0 >= 0 && m[i].0.1 >= 0,
    ensures
        spec_lines(spec_render_merges(m)) == spec_merge_bodies(m),
    decreases m.len(),
{
    if m.len() == 0 {
        assert(spec_merge_bodies(m) =~= Seq::<Seq<char>>::empty());
    } else {
        let body = spec_dec(m[0].0.0 as int) + seq![' '] + spec_dec(m[0].0.1 as int);
        let rest = spec_render_merges(m.drop_first());
        assert(spec_render_merges(m) =~= body + seq!['\n'] + rest);
        assert forall|j: int| 0 <= j < body.len() implies body[j] != '\n' by {
            lemma_dec_plain(m[0].0.0 as int);
            lemma_dec_plain(m[0].0.1 as int);
            let d0 = spec_dec(m[0].0.0 as int);
            if j < d0.len() {
                assert(body[j] == d0[j]);
            } else if j == d0.len() {
                assert(body[j] == ' ');
            } else {
                assert(body[j] == spec_dec(m[0].0.1 as int)[j - d0.len() - 1]);
            }
        }
        lemma_lines_cons(body, rest);
        assert forall|i: int|
            0 <= i < m.drop_first().len() implies (#[trigger] m.drop_first()[i]).0.0 >= 0
            && m.drop_first()[i].0.1 >= 0 by {
            assert(m.drop_first()[i] == m[i + 1]);
        }
        lemma_lines_merges(m.drop_first());
        assert(spec_merge_bodies(m) =~= seq![body] + spec_merge_bodies(m.drop_first()));
        assert(seq![body] + spec_merge_bodies(m.drop_first()) =~= spec_merge_bodies(m));
    }
}

/// A special-token line parses back to its name and id.
proof fn lemma_parse_special_line_round(name: Seq<char>, id: Token)
    requires
        name.len() > 0,
        forall|j: int| 0 <= j < name.len() ==> name[j] != ' ',
        id >= 0,
    ensures
        spec_parse_special_line(name + seq![' '] + spec_dec(id as int)) == Some((name, id)),
{
    let line = name + seq![' '] + spec_dec(id as int);
    lemma_find_char_concat(name, ' ', spec_dec(id as int));
    assert(line.take(name.len() as int) =~= name);
    assert(line.skip(name.len() as int + 1) =~= spec_dec(id as int));
    lemma_dec_round_trip(id as int);
}

/// A merge line parses back to its pair.
proof fn lemma_parse_merge_line_round(p: crate::base::Pair)
    requires
        p.0 >= 0,
        p.1 >= 0,
    ensures
        spec_parse_merge_line(
            spec_dec(p.0 as int) + seq![' '] + spec_dec(p.1 as int),
        ) == Some(p),
{
    let d0 = spec_dec(p.0 as int);
    let line = d0 + seq![' '] + spec_dec(p.1 as int);
    assert forall|j: int| 0 <= j < d0.len() implies d0[j] != ' ' by {
        lemma_dec_plain(p.0 as int);
    }
    lemma_find_char_concat(d0, ' ', spec_dec(p.1 as int));
    assert(line.take(d0.len() as int) =~= d0);
    assert(line.skip(d0.len() as int + 1) =~= spec_dec(p.1 as int));
    lemma_dec_round_trip(p.0 as int);
    lemma_dec_round_trip(p.1 as int);
}

/// The special-token lines at `base` parse back to the table.
proof fn lemma_parse_specials_round(
    lines: Seq<Seq<char>>,
    base: int,
    sp: Seq<(Seq<char>, Token)>,
)
    requires
        0 <= base,
        base + sp.len() <= lines.len(),
        specials_saveable(sp),
        forall|i: int|
            0 <= i < sp.len() ==> lines[base + i] == (#[trigger] sp[i]).0 + seq![' '] + spec_dec(
                sp[i].1 as int,
            ),
    ensures
        spec_parse_specials(lines, base, sp.len() as int) == Some(sp),
    decreases sp.len(),
{
    if sp.len() > 0 {
        lemma_parse_special_line_round(sp[0].0, sp[0].1);
        assert(specials_saveable(sp.drop_first())) by {
            assert forall|i: int|
                0 <= i < sp.drop_first().len() implies (#[trigger] sp.drop_first()[i]).0.len() > 0
                && sp.drop_first()[i].1 >= 0 && (forall|j: int|
                0 <= j < sp.drop_first()[i].0.len() ==> (#[trigger] sp.drop_first()[i].0[j])
                    != '\n' && sp.drop_first()[i].0[j] != ' ') by {
                assert(sp.drop_first()[i] == sp[i + 1]);
            }
        }
        assert forall|i: int|
            0 <= i < sp.drop_first().len() implies lines[base + 1 + i] == (
        #[trigger] sp.drop_first()[i]).0 + seq![' '] + spec_dec(sp.drop_first()[i].1 as int) by {
            assert(sp.drop_first()[i] == sp[i + 1]);
            assert(lines[base + (i + 1)] == sp[i + 1].0 + seq![' '] + spec_dec(
                sp[i + 1].1 as int,
            ));
        }
        lemma_parse_specials_round(lines, base + 1, sp.drop_first());
        assert(seq![sp[0]] + sp.drop_first() =~= sp);
    }
}

/// The merge lines from position `base + j` parse back to the table's
/// suffix, with positional tokens continuing at `256 + j`.
proof fn lemma_parse_merges_round(
    lines: Seq<Seq<char>>,
    base: int,
    m: Seq<(crate::base::Pair, Token)>,
    j: int,
)
    requires
        0 <= base,
        0 <= j <= m.len(),
        lines.len() == base + m.len(),
        crate::base::merges_wf(m),
        m.len() <= Token::MAX - 256,
        forall|i: int| 0 <= i < m.len() ==> (#[trigger] m[i]).1 == 256 + i,
        forall|i: int|
            0 <= i < m.len() ==> lines[base + i] == spec_dec((#[trigger] m[i]).0.0 as int)
                + seq![' '] + spec_dec(m[i].0.1 as int),
    ensures
        spec_parse_merges(lines, base + j, (256 + j) as Token) == Some(m.skip(j)),
    decreases m.len() - j,
{
    if j == m.len() {
        assert(m.skip(j) =~= Seq::<(crate::base::Pair, Token)>::empty());
    } else {
        assert(crate::base::merge_entry_wf(m, j));
        lemma_parse_merge_line_round(m[j].0);
        assert(lines[base + j] == spec_dec(m[j].0.0 as int) + seq![' '] + spec_dec(
            m[j].0.1 as int,
        ));
        assert(m[j].1 == 256 + j);
        assert(0 <= m[j].0.0 < 256 + j && 0 <= m[j].0.1 < 256 + j);
        assert((256 + j) as Token != Token::MAX);
        lemma_parse_merges_round(lines, base, m, j + 1);
        assert(seq![(m[j].0, (256 + j) as Token)] + m.skip(j + 1) =~= m.skip(j));
    }
}

/// Format round trip: rendering a model and parsing it back yields
/// exactly the pattern, the special tokens and the merges that were
/// saved — so a loaded tokenizer carries the same state, and its encode
/// and decode behavior is indistinguishable from the original's.
pub proof fn lemma_model_round_trip(
    pattern: Seq<char>,
    sp: Seq<(Seq<char>, Token)>,
    m: Seq<(crate::base::Pair, Token)>,
)
    requires
        forall|j: int| 0 <= j < pattern.len() ==> pattern[j] != '\n',
        specials_saveable(sp),
        crate::base::merges_wf(m),
        m.len() <= Token::MAX - 256,
        forall|i: int| 0 <= i < m.len() ==> (#[trigger] m[i]).1 == 256 + i,
        sp.len() <= Token::MAX,
        spec_specials_ok(sp, m.len() as int),
    ensures
        spec_parse_model(spec_render_model(pattern, sp, m)) == Some((pattern, sp, m)),
{
    let t = spec_render_model(pattern, sp, m);
    let marker = spec_model_marker();
    let nsline = spec_dec(sp.len() as int);
    let sp_part = spec_render_specials(sp);
    let m_part = spec_render_merges(m);
    // The rendered text splits into its lines.
    assert forall|j: int| 0 <= j < marker.len() implies marker[j] != '\n' by {
        reveal_strlit("minbpe v1");
        if j == 0 {
        } else if j == 1 {
        } else if j == 2 {
        } else if j == 3 {
        } else if j == 4 {
        } else if j == 5 {
        } else if j == 6 {
        } else if j == 7 {
        } else {
            assert(j == 8);
        }
    }
    lemma_dec_plain(sp.len() as int);
    assert forall|i: int| 0 <= i < m.len() implies (#[trigger] m[i]).0.0 >= 0 && m[i].0.1 >= 0 by {
        assert(crate::base::merge_entry_wf(m, i));
    }
    let tail2 = pattern + seq!['\n'] + (nsline + seq!['\n'] + (sp_part + m_part));
    assert(t =~= marker + seq!['\n'] + tail2);
    lemma_lines_cons(marker, tail2);
    let tail3 = nsline + seq!['\n'] + (sp_part + m_part);
    lemma_lines_cons(pattern, tail3);
    lemma_lines_cons(nsline, sp_part + m_part);
    lemma_lines_specials(sp, m_part);
    lemma_lines_merges(m);
    let lines = spec_lines(t);
    assert(lines =~= seq![marker, pattern, nsline] + spec_special_bodies(sp)
        + spec_merge_bodies(m));
    assert(lines.len() == 3 + sp.len() + m.len());
    // The header parses back.
    assert(lines[0] == marker && lines[1] == pattern && lines[2] == nsline);
    lemma_dec_round_trip(sp.len() as int);
    // The special-token lines parse back.
    assert forall|i: int|
        0 <= i < sp.len() implies lines[3 + i] == (#[trigger] sp[i]).0 + seq![' '] + spec_dec(
        sp[i].1 as int,
    ) by {
        assert(lines[3 + i] == spec_special_bodies(sp)[i]);
    }
    lemma_parse_specials_round(lines, 3, sp);
    // The merge lines parse back, tokens assigned positionally from 256.
    assert forall|i: int|
        0 <= i < m.len() implies lines[3 + sp.len() + i] == spec_dec((#[trigger] m[i]).0.0 as int)
        + seq![' '] + spec_dec(m[i].0.1 as int) by {
        assert(lines[3 + sp.len() + i] == spec_merge_bodies(m)[i]);
    }
    lemma_parse_merges_round(lines, 3 + sp.len() as int, m, 0);
    assert(m.skip(0) =~= m);
}

// ---------------------------------------------------------------------------
// The human-readable vocabulary listing.
// ---------------------------------------------------------------------------

/// Index of the first merge whose token is `t`, or -1 if there is none.
pub open spec fn merge_value_index(m: Seq<(crate::base::Pair, Token)>, t: Token) -> int
    decreases m.len(),
{
    if m.len() == 0 {
        -1
    } else if m[0].1 == t {
        0
    } else {
        let r = merge_value_index(m.drop_first(), t);
        if r < 0 {
            -1
        } else {
            r + 1
        }
    }
}

/// `merge_value_index` finds the first merge with the given token, and -1
/// means the token is no merge token.
pub proof fn lemma_merge_value_index(m: Seq<(crate::base::Pair, Token)>, t: Token)
    ensures
        -1 <= merge_value_index(m, t) < m.len(),
        merge_value_index(m, t) >= 0 ==> m[merge_value_index(m, t)].1 == t,
        forall|j: int| 0 <= j < merge_value_index(m, t) ==> m[j].1 != t,
        merge_value_index(m, t) == -1 ==> forall|j: int| 0 <= j < m.len() ==> m[j].1 != t,
    decreases m.len(),
{
    if m.len() == 0 {
    } else if m[0].1 == t {
    } else {
        lemma_merge_value_index(m.drop_first(), t);
        assert forall|j: int| 0 <= j < m.len() && m[j].1 == t implies j > 0 && m.drop_first()[j
            - 1].1 == t by {
            assert(m.drop_first()[j - 1] == m[j]);
        }
    }
}

/// A token's bytes rendered for inspection.
pub open spec fn spec_rendered(b: Seq<u8>) -> Seq<char> {
    spec_replace_control(lossy_of(b))
}

/// One vocabulary listing line: a merge-produced entry shows its parents,
/// a leaf entry just itself, each with the token id.
pub open spec fn spec_vocab_line(
    v: Seq<(Token, Seq<u8>)>,
    m: Seq<(crate::base::Pair, Token)>,
    entry: (Token, Seq<u8>),
) -> Seq<char> {
    let jj = merge_value_index(m, entry.0);
    if jj >= 0 {
        let p = m[jj].0;
        seq!['['] + spec_rendered(crate::base::value_of(v, p.0)) + seq![']', '[']
            + spec_rendered(crate::base::value_of(v, p.1)) + seq![']', ' ', '-', '>', ' ', '[']
            + spec_rendered(entry.1) + seq![']', ' '] + spec_dec(entry.0 as int) + seq!['\n']
    } else {
        seq!['['] + spec_rendered(entry.1) + seq![']', ' '] + spec_dec(entry.0 as int)
            + seq!['\n']
    }
}

/// The vocabulary listing: one line per entry, in vocabulary order.
pub open spec fn spec_render_vocab(
    v: Seq<(Token, Seq<u8>)>,
    m: Seq<(crate::base::Pair, Token)>,
    i: int,
) -> Seq<char>
    decreases v.len() - i,
{
    if i < 0 || i >= v.len() {
        Seq::empty()
    } else {
        spec_vocab_line(v, m, v[i]) + spec_render_vocab(v, m, i + 1)
    }
}

impl crate::regex::RegexTokenizerStruct {
    /// Renders the vocabulary for human inspection, one line per entry:
    /// merge-produced entries show their parents' renderings and their
    /// own, leaf entries just their own, each with the token id. The
    /// listing is never a valid load input.
    #[verifier::loop_isolation(false)]
    pub fn render_vocab(&self) -> (r: String)
        requires
            self.wf(),
        ensures
            r@ == spec_render_vocab(vocab_view(self.vocab@), self.merges@, 0),
    {
        let ghost vv = vocab_view(self.vocab@);
        let ghost mm = self.merges@;
        let open_b = "[";
        let close_open = "][";
        let arrow = "] -> [";
        let close_sp = "] ";
        proof {
            reveal_strlit("[");
            reveal_strlit("][");
            reveal_strlit("] -> [");
            reveal_strlit("] ");
            assert(open_b@ =~= seq!['[']);
            assert(close_open@ =~= seq![']', '[']);
            assert(arrow@ =~= seq![']', ' ', '-', '>', ' ', '[']);
            assert(close_sp@ =~= seq![']', ' ']);
        }
        let mut out = String::new();
        let n = self.vocab.len();
        let mut i: usize = 0;
        proof {
            assert(out@ + spec_render_vocab(vv, mm, 0) =~= spec_render_vocab(vv, mm, 0));
        }
        while i < n
            invariant
                n == self.vocab@.len(),
                i <= n,
                spec_render_vocab(vv, mm, 0) == out@ + spec_render_vocab(vv, mm, i as int),
            decreases n - i,
        {
            let ghost pre = out@;
            let idx = self.vocab[i].0;
            proof {
                assert(vv[i as int] == (self.vocab@[i as int].0, self.vocab@[i as int].1@));
                lemma_vocab_ids_nonneg(
                    crate::base::specials_view(self.special_tokens@),
                    mm,
                    i as int,
                );
            }
            let s = render_token(&self.vocab[i].1);
            let jj = find_merge_by_value(&self.merges, idx);
            match jj {
                Some(j) => {
                    let pair = self.merges[j].0;
                    proof {
                        assert(crate::base::merge_entry_wf(mm, j as int));
                        lemma_parent_in_vocab(
                            crate::base::specials_view(self.special_tokens@),
                            mm,
                            j as int,
                        );
                        crate::base::lemma_view_key_index(self.vocab@, pair.0);
                        crate::base::lemma_view_key_index(self.vocab@, pair.1);
                        crate::base::lemma_key_index(vv, pair.0);
                        crate::base::lemma_key_index(vv, pair.1);
                    }
                    let i0 = match crate::base::find_token_index(&self.vocab, pair.0) {
                        Some(x) => x,
                        None => vstd::pervasive::unreached(),
                    };
                    let i1 = match crate::base::find_token_index(&self.vocab, pair.1) {
                        Some(x) => x,
                        None => vstd::pervasive::unreached(),
                    };
                    let s0 = render_token(&self.vocab[i0].1);
                    let s1 = render_token(&self.vocab[i1].1);
                    let idtext = render_dec(idx);
                    out.append(open_b);
                    out.append(s0.as_str());
                    out.append(close_open);
                    out.append(s1.as_str());
                    out.append(arrow);
                    out.append(s.as_str());
                    out.append(close_sp);
                    out.append(idtext.as_str());
                    out.append(newline_str());
                    proof {
                        assert(crate::base::value_of(vv, pair.0) == vv[i0 as int].1);
                        assert(crate::base::value_of(vv, pair.1) == vv[i1 as int].1);
                        assert(vv[i0 as int].1 == self.vocab@[i0 as int].1@);
                        assert(vv[i1 as int].1 == self.vocab@[i1 as int].1@);
                        assert(out@ =~= pre + spec_vocab_line(vv, mm, vv[i as int]));
                    }
                },
                None => {
                    let idtext = render_dec(idx);
                    out.append(open_b);
                    out.append(s.as_str());
                    out.append(close_sp);
                    out.append(idtext.as_str());
                    out.append(newline_str());
                    proof {
                        assert(out@ =~= pre + spec_vocab_line(vv, mm, vv[i as int]));
                    }
                },
            }
            proof {
                assert(pre + (spec_vocab_line(vv, mm, vv[i as int]) + spec_render_vocab(
                    vv,
                    mm,
                    i as int + 1,
                )) =~= out@ + spec_render_vocab(vv, mm, i as int + 1));
            }
            i += 1;
        }
        out
    }
}

/// Entry lookup by merge token: index of the first merge carrying it.
fn find_merge_by_value(m: &Vec<(crate::base::Pair, Token)>, t: Token) -> (r: Option<usize>)
    ensures
        match r {
            Some(j) => merge_value_index(m@, t) == j && j < m@.len() && m@[j as int].1 == t,
            None => merge_value_index(m@, t) == -1,
        },
{
    let n = m.len();
    let mut j: usize = 0;
    while j < n
        invariant
            n == m@.len(),
            j <= n,
            forall|j2: int| 0 <= j2 < j ==> m@[j2].1 != t,
        decreases n - j,
    {
        if m[j].1 == t {
            proof {
                lemma_merge_value_index(m@, t);
                let mi = merge_value_index(m@, t);
                assert(mi != -1);
                if mi < j {
                    assert(m@[mi].1 != t);
                }
                if mi > j {
                    assert(m@[j as int].1 != t);
                }
            }
            return Some(j);
        }
        j += 1;
    }
    proof {
        lemma_merge_value_index(m@, t);
        let mi = merge_value_index(m@, t);
        if mi >= 0 {
            assert(m@[mi].1 != t);
        }
    }
    None
}

/// Every id in a derived vocabulary is nonnegative.
proof fn lemma_vocab_ids_nonneg(
    sp: Seq<(Seq<char>, Token)>,
    m: Seq<(crate::base::Pair, Token)>,
    i: int,
)
    requires
        crate::base::merges_wf(m),
        crate::regex::specials_wf(sp),
        0 <= i < crate::base::spec_build_vocab(sp, m).len(),
    ensures
        crate::base::spec_build_vocab(sp, m)[i].0 >= 0,
{
    let va = crate::base::spec_vocab_after(m, m.len() as int);
    crate::base::lemma_vocab_after_structure(m, m.len() as int);
    let v = crate::base::spec_build_vocab(sp, m);
    if i < va.len() {
        assert(v[i] == va[i]);
    } else {
        let k = i - va.len();
        assert(v[i] == crate::base::spec_special_vocab(sp)[k]);
        assert(crate::base::spec_special_vocab(sp)[k].0 == sp[k].1);
        assert(sp[k].1 >= 256);
    }
}

/// Both parents of a merge have a vocabulary entry.
proof fn lemma_parent_in_vocab(
    sp: Seq<(Seq<char>, Token)>,
    m: Seq<(crate::base::Pair, Token)>,
    j: int,
)
    requires
        crate::base::merges_wf(m),
        0 <= j < m.len(),
    ensures
        crate::base::has_key(crate::base::spec_build_vocab(sp, m), m[j].0.0),
        crate::base::has_key(crate::base::spec_build_vocab(sp, m), m[j].0.1),
        crate::base::value_of(crate::base::spec_build_vocab(sp, m), m[j].0.0)
            == crate::base::value_of(crate::base::spec_vocab_after(m, m.len() as int), m[j].0.0),
        crate::base::value_of(crate::base::spec_build_vocab(sp, m), m[j].0.1)
            == crate::base::value_of(crate::base::spec_vocab_after(m, m.len() as int), m[j].0.1),
{
    let va = crate::base::spec_vocab_after(m, m.len() as int);
    crate::base::lemma_vocab_entry_parents(m, j, m.len() as int);
    crate::base::lemma_stable_append(va, crate::base::spec_special_vocab(sp), m[j].0.0);
    crate::base::lemma_stable_append(va, crate::base::spec_special_vocab(sp), m[j].0.1);
}

} // verus!
