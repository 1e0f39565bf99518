//! The tokens of a text, and the comparison of two lists of tokens.

use vstd::prelude::*;
use vstd::string::StrSliceExecFns;

verus! {

/// The byte order mark, as a character.
pub const BOM: char = '\u{feff}';

/// `s` without a byte order mark at its start.
pub open spec fn without_bom(s: Seq<char>) -> Seq<char> {
    if s.len() > 0 && s[0] == BOM {
        s.skip(1)
    } else {
        s
    }
}

/// The pieces that `str::split_whitespace` cuts a text into.
pub uninterp spec fn whitespace_words(s: Seq<char>) -> Seq<Seq<char>>;

/// The text that `str::to_lowercase` makes of a text.
pub uninterp spec fn lowercased(s: Seq<char>) -> Seq<char>;

/// The tokens of a text: its pieces between white space, a byte order mark
/// at the start of the text left out, each in lower case.
pub open spec fn tokens_of(content: Seq<char>) -> Seq<Seq<char>> {
    whitespace_words(without_bom(content)).map_values(|w: Seq<char>| lowercased(w))
}

/// Calls `str::split_whitespace` and hands back the pieces as owned
/// strings, in order. The contract names the result and says no more.
#[verifier::external_body]
fn split_whitespace(s: &str) -> (r: Vec<String>)
    ensures
        r.deep_view() == whitespace_words(s@),
{
    s.split_whitespace().map(|t| t.to_string()).collect()
}

/// Calls `str::to_lowercase`. The contract names the result and says no
/// more.
#[verifier::external_body]
fn to_lowercase(s: &str) -> (r: String)
    ensures
        r@ == lowercased(s@),
{
    s.to_lowercase()
}

/// Removes the byte order mark from the start of a text.
pub fn remove_utf8_bom(s: &str) -> (r: &str)
    ensures
        r@ == without_bom(s@),
{
    let n = s.unicode_len();
    if n > 0 && s.get_char(0) == BOM {
        let r = s.substring_char(1, n);
        r
    } else {
        s
    }
}

/// The tokens of a text.
pub fn get_tokens(content: &str) -> (r: Vec<String>)
    ensures
        r.deep_view() == tokens_of(content@),
{
    let words = split_whitespace(remove_utf8_bom(content));
    let mut r: Vec<String> = Vec::new();
    let mut i: usize = 0;
    while i < words.len()
        invariant
            i <= words@.len(),
            r@.len() == i,
            forall|k: int| 0 <= k < i ==> #[trigger] r@[k]@ == lowercased(words@[k]@),
        decreases words.len() - i,
    {
        let low = to_lowercase(words[i].as_str());
        r.push(low);
        i += 1;
    }
    r
}

/// How an output compares with the expected one, token by token.
#[derive(Copy, Clone, Debug, PartialEq, Eq, Structural)]
pub enum Verdict {
    /// All tokens agree; the number is their count.
    Correct(usize),
    /// The numbers of tokens differ.
    CountMismatch { expected: usize, found: usize },
    /// The numbers of tokens agree; the number is the position of the
    /// first token that differs.
    TokenMismatch(usize),
}

/// Compares the tokens of an output with the expected ones.
pub fn compare_tokens(expected: &Vec<String>, output: &Vec<String>) -> (v: Verdict)
    ensures
        expected@.len() != output@.len() ==> v == (Verdict::CountMismatch {
            expected: expected@.len() as usize,
            found: output@.len() as usize,
        }),
        expected@.len() == output@.len() ==> match v {
            Verdict::Correct(n) => n == expected@.len() && forall|k: int|
                0 <= k < n ==> expected@[k]@ == output@[k]@,
            Verdict::TokenMismatch(i) => i < expected@.len() && expected@[i as int]@
                != output@[i as int]@ && forall|k: int| 0 <= k < i ==> expected@[k]@ == output@[k]@,
            Verdict::CountMismatch { .. } => false,
        },
{
    if expected.len() != output.len() {
        return Verdict::CountMismatch { expected: expected.len(), found: output.len() };
    }
    let mut i: usize = 0;
    while i < expected.len()
        invariant
            i <= expected@.len(),
            expected@.len() == output@.len(),
            forall|k: int| 0 <= k < i ==> expected@[k]@ == output@[k]@,
        decreases expected.len() - i,
    {
        if expected[i] != output[i] {
            return Verdict::TokenMismatch(i);
        }
        i += 1;
    }
    Verdict::Correct(expected.len())
}

} // verus!
