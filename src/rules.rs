//! The matching rules: byte classes, maximal runs, string literals, and the
//! classifier that picks the longest match at a position.

use vstd::prelude::*;
use crate::token::{classify_word, fixed_text, is_keyword, word_token, Token};

verus! {

/// A class of bytes that a rule consumes in a run.
#[derive(Debug, Clone, Copy, PartialEq, Eq, Structural)]
pub enum ByteClass {
    /// `0`-`9`
    Digit,
    /// A letter, a digit or `_`.
    Word,
    /// Space, tab, line feed or form feed.
    Blank,
    /// Anything but a line feed.
    NotNewline,
    /// Anything but a double quote.
    NotQuote,
    /// A UTF-8 continuation byte.
    Continuation,
}

/// `0`-`9`
pub open spec fn is_digit(b: u8) -> bool {
    '0' as u8 <= b <= '9' as u8
}

/// A byte that can start an identifier: a letter or `_`.
pub open spec fn is_word_start(b: u8) -> bool {
    ('a' as u8 <= b <= 'z' as u8) || ('A' as u8 <= b <= 'Z' as u8) || b == '_' as u8
}

/// Whether `b` belongs to class `c`.
pub open spec fn in_class(c: ByteClass, b: u8) -> bool {
    match c {
        ByteClass::Digit => is_digit(b),
        ByteClass::Word => is_word_start(b) || is_digit(b),
        ByteClass::Blank => b == ' ' as u8 || b == '\t' as u8 || b == '\n' as u8 || b == 12u8,
        ByteClass::NotNewline => b != '\n' as u8,
        ByteClass::NotQuote => b != '"' as u8,
        ByteClass::Continuation => 0x80u8 <= b <= 0xbfu8,
    }
}

/// Whether `b` belongs to class `c`.
pub fn class_holds(c: ByteClass, b: u8) -> (r: bool)
    ensures
        r == in_class(c, b),
{
    match c {
        ByteClass::Digit => '0' as u8 <= b && b <= '9' as u8,
        ByteClass::Word => ('a' as u8 <= b && b <= 'z' as u8) || ('A' as u8 <= b && b <= 'Z' as u8)
            || b == '_' as u8 || ('0' as u8 <= b && b <= '9' as u8),
        ByteClass::Blank => b == ' ' as u8 || b == '\t' as u8 || b == '\n' as u8 || b == 12u8,
        ByteClass::NotNewline => b != '\n' as u8,
        ByteClass::NotQuote => b != '"' as u8,
        ByteClass::Continuation => 0x80u8 <= b && b <= 0xbfu8,
    }
}

/// Whether `s` holds byte `b` at index `i`.
pub open spec fn byte_at(s: Seq<u8>, i: int, b: u8) -> bool {
    0 <= i < s.len() && s[i] == b
}

/// The length of the longest run of class `c` that starts at `p`.
pub open spec fn run(s: Seq<u8>, p: int, c: ByteClass) -> int
    decreases s.len() - p,
{
    if 0 <= p < s.len() && in_class(c, s[p]) {
        1 + run(s, p + 1, c)
    } else {
        0
    }
}

/// A run stays inside the input, holds only bytes of its class, and ends
/// before a byte outside it.
pub proof fn lemma_run_bounds(s: Seq<u8>, p: int, c: ByteClass)
    requires
        0 <= p <= s.len(),
    ensures
        0 <= run(s, p, c) <= s.len() - p,
        forall|j: int| p <= j < p + run(s, p, c) ==> in_class(c, #[trigger] s[j]),
        p + run(s, p, c) < s.len() ==> !in_class(c, s[p + run(s, p, c)]),
    decreases s.len() - p,
{
    if p < s.len() && in_class(c, s[p]) {
        lemma_run_bounds(s, p + 1, c);
    }
}

/// The index just past the longest run of class `c` that starts at `p`.
pub fn run_end(bytes: &[u8], p: usize, c: ByteClass) -> (r: usize)
    requires
        p <= bytes@.len(),
    ensures
        r == p + run(bytes@, p as int, c),
        r <= bytes@.len(),
{
    proof {
        lemma_run_bounds(bytes@, p as int, c);
    }
    let mut i = p;
    while i < bytes.len() && class_holds(c, bytes[i])
        invariant
            p <= i <= bytes@.len(),
            run(bytes@, p as int, c) == (i - p) + run(bytes@, i as int, c),
        decreases bytes@.len() - i,
    {
        i = i + 1;
    }
    i
}

/// Where the string literal whose body starts at `q` closes: the index of its
/// closing quote. A backslash escapes the byte after it.
pub open spec fn string_close(s: Seq<u8>, q: int) -> Option<int>
    decreases s.len() - q,
{
    if q < 0 || q >= s.len() {
        None
    } else if s[q] == '"' as u8 {
        Some(q)
    } else if s[q] == '\\' as u8 {
        if q + 1 < s.len() {
            string_close(s, q + 2)
        } else {
            None
        }
    } else {
        string_close(s, q + 1)
    }
}

/// A closing quote lies inside the input, at or after `q`.
pub proof fn lemma_string_close_bounds(s: Seq<u8>, q: int)
    requires
        0 <= q,
    ensures
        string_close(s, q) matches Some(k) ==> q <= k < s.len() && s[k] == '"' as u8,
    decreases s.len() - q,
{
    if q < s.len() && s[q] != '"' as u8 {
        if s[q] == '\\' as u8 {
            if q + 1 < s.len() {
                lemma_string_close_bounds(s, q + 2);
            }
        } else {
            lemma_string_close_bounds(s, q + 1);
        }
    }
}

/// Finds the closing quote of the string literal whose body starts at `q`.
pub fn find_string_close(bytes: &[u8], q: usize) -> (r: Option<usize>)
    requires
        q <= bytes@.len(),
    ensures
        r matches Some(k) ==> string_close(bytes@, q as int) == Some(k as int),
        r is None ==> string_close(bytes@, q as int) is None,
{
    let mut i = q;
    while i < bytes.len()
        invariant
            q <= i <= bytes@.len() + 1,
            string_close(bytes@, q as int) == string_close(bytes@, i as int),
        decreases bytes@.len() + 1 - i,
    {
        if bytes[i] == '"' as u8 {
            return Some(i);
        }
        if bytes[i] == '\\' as u8 {
            if i + 1 >= bytes.len() {
                return None;
            }
            i = i + 2;
        } else {
            i = i + 1;
        }
    }
    None
}

/// What the classifier decides at a position.
#[derive(Debug, Clone, Copy, PartialEq, Eq, Structural)]
pub enum Outcome {
    /// Whitespace or a comment: consumed, nothing emitted.
    Skip,
    /// A token of this category.
    Emit(Token),
    /// No rule matches.
    Unrecognized,
}

/// The length of the number that starts at `p`: digits, then optionally a
/// dot and at least one more digit.
pub open spec fn number_len(s: Seq<u8>, p: int) -> int {
    let d = run(s, p, ByteClass::Digit);
    if byte_at(s, p + d, '.' as u8) && run(s, p + d + 1, ByteClass::Digit) > 0 {
        d + 1 + run(s, p + d + 1, ByteClass::Digit)
    } else {
        d
    }
}

/// A one-byte operator, or the two-byte one when `second` follows it.
pub open spec fn one_or_two(s: Seq<u8>, p: int, second: u8, long: Token, short: Token) -> (Outcome, int) {
    if byte_at(s, p + 1, second) {
        (Outcome::Emit(long), 2)
    } else {
        (Outcome::Emit(short), 1)
    }
}

/// The longest match at `p`, and its length in bytes.
pub open spec fn step_at(s: Seq<u8>, p: int) -> (Outcome, int) {
    let b = s[p];
    if in_class(ByteClass::Blank, b) {
        (Outcome::Skip, run(s, p, ByteClass::Blank))
    } else if is_digit(b) {
        (Outcome::Emit(Token::Number), number_len(s, p))
    } else if is_word_start(b) {
        let n = run(s, p, ByteClass::Word);
        (Outcome::Emit(word_token(s.subrange(p, p + n))), n)
    } else if b == '"' as u8 {
        match string_close(s, p + 1) {
            Some(k) => (Outcome::Emit(Token::String), k + 1 - p),
            None => (Outcome::Emit(Token::UnclosedString), 1 + run(s, p + 1, ByteClass::NotQuote)),
        }
    } else if b == '-' as u8 {
        if byte_at(s, p + 1, '#' as u8) && byte_at(s, p + 2, '-' as u8) {
            (Outcome::Skip, 3 + run(s, p + 3, ByteClass::NotNewline))
        } else if byte_at(s, p + 1, '>' as u8) {
            (Outcome::Emit(Token::LeftPointer), 2)
        } else if byte_at(s, p + 1, '=' as u8) {
            (Outcome::Emit(Token::MinusEqual), 2)
        } else {
            one_or_two(s, p, '-' as u8, Token::Decrement, Token::Minus)
        }
    } else if b == '<' as u8 {
        if byte_at(s, p + 1, '-' as u8) {
            (Outcome::Emit(Token::RightPointer), 2)
        } else {
            one_or_two(s, p, '=' as u8, Token::LessThanOrEqual, Token::LessThan)
        }
    } else if b == '+' as u8 {
        if byte_at(s, p + 1, '+' as u8) {
            (Outcome::Emit(Token::Increment), 2)
        } else {
            one_or_two(s, p, '=' as u8, Token::PlusEqual, Token::Plus)
        }
    } else if b == '*' as u8 {
        one_or_two(s, p, '=' as u8, Token::MultiplyEqual, Token::Multiply)
    } else if b == '/' as u8 {
        one_or_two(s, p, '=' as u8, Token::DivideEqual, Token::Divide)
    } else if b == '=' as u8 {
        one_or_two(s, p, '=' as u8, Token::Equal, Token::Assign)
    } else if b == '>' as u8 {
        one_or_two(s, p, '=' as u8, Token::GreaterThanOrEqual, Token::GreaterThan)
    } else if b == '!' as u8 && byte_at(s, p + 1, '=' as u8) {
        (Outcome::Emit(Token::NotEqual), 2)
    } else if b == ':' as u8 && byte_at(s, p + 1, ':' as u8) {
        (Outcome::Emit(Token::DoubleColon), 2)
    } else if b == '|' as u8 {
        (Outcome::Emit(Token::Pipe), 1)
    } else if b == '[' as u8 {
        (Outcome::Emit(Token::OpenBracket), 1)
    } else if b == ']' as u8 {
        (Outcome::Emit(Token::CloseBracket), 1)
    } else if b == '?' as u8 {
        (Outcome::Emit(Token::QuestionMark), 1)
    } else {
        (Outcome::Unrecognized, 1 + run(s, p + 1, ByteClass::Continuation))
    }
}

/// Every match is non-empty and stays inside the input.
pub proof fn lemma_step_bounds(s: Seq<u8>, p: int)
    requires
        0 <= p < s.len(),
    ensures
        1 <= step_at(s, p).1 <= s.len() - p,
{
    lemma_run_bounds(s, p, ByteClass::Blank);
    lemma_run_bounds(s, p, ByteClass::Digit);
    lemma_run_bounds(s, p, ByteClass::Word);
    lemma_run_bounds(s, p + 1, ByteClass::Blank);
    lemma_run_bounds(s, p + 1, ByteClass::Digit);
    lemma_run_bounds(s, p + 1, ByteClass::Word);
    lemma_run_bounds(s, p + 1, ByteClass::NotQuote);
    lemma_run_bounds(s, p + 1, ByteClass::Continuation);
    lemma_string_close_bounds(s, p + 1);
    let d = run(s, p, ByteClass::Digit);
    if p + d + 1 <= s.len() {
        lemma_run_bounds(s, p + d + 1, ByteClass::Digit);
    }
    if p + 3 <= s.len() {
        lemma_run_bounds(s, p + 3, ByteClass::NotNewline);
    }
}

/// A token starts and ends with a byte below 0x80.
pub proof fn lemma_emit_ends_ascii(s: Seq<u8>, p: int)
    requires
        0 <= p < s.len(),
        step_at(s, p).0 is Emit,
        step_at(s, p).0 != Outcome::Emit(Token::UnclosedString),
    ensures
        s[p] < 0x80,
        s[p + step_at(s, p).1 - 1] < 0x80,
{
    lemma_step_bounds(s, p);
    lemma_run_bounds(s, p, ByteClass::Digit);
    lemma_run_bounds(s, p, ByteClass::Word);
    lemma_run_bounds(s, p + 1, ByteClass::Digit);
    lemma_run_bounds(s, p + 1, ByteClass::Word);
    lemma_string_close_bounds(s, p + 1);
    let d = run(s, p, ByteClass::Digit);
    if p + d + 1 <= s.len() {
        lemma_run_bounds(s, p + d + 1, ByteClass::Digit);
    }
    let n = step_at(s, p).1;
    assert(in_class(ByteClass::Digit, s[p + d - 1]) || !is_digit(s[p]));
    assert(in_class(ByteClass::Word, s[p + run(s, p, ByteClass::Word) - 1]) || !is_word_start(s[p]));
    if is_digit(s[p]) && n > d {
        assert(in_class(ByteClass::Digit, s[p + n - 1]));
    }
}

/// `s` holds `text` starting at `p`.
pub open spec fn occurs_at(s: Seq<u8>, p: int, text: Seq<u8>) -> bool {
    0 <= p && p + text.len() <= s.len() && s.subrange(p, p + text.len()) == text
}

proof fn lemma_run_covers(s: Seq<u8>, p: int, c: ByteClass, k: int)
    requires
        0 <= p,
        0 <= k,
        p + k <= s.len(),
        forall|j: int| p <= j < p + k ==> in_class(c, #[trigger] s[j]),
    ensures
        run(s, p, c) >= k,
    decreases k,
{
    lemma_run_bounds(s, p, c);
    if k > 0 {
        lemma_run_covers(s, p + 1, c, k - 1);
    }
}

/// A word that spells a keyword is classified as that keyword.
proof fn lemma_keyword_spelled(t: Token)
    requires
        is_keyword(t),
    ensures
        word_token(fixed_text(t)) == t,
{
    let w = fixed_text(t);
    assert(w.len() == fixed_text(t).len());
    if w.len() == 5 {
        assert(fixed_text(Token::Claim)[0] != fixed_text(Token::Other)[0]);
        assert(fixed_text(Token::Claim)[0] != fixed_text(Token::While)[0]);
        assert(fixed_text(Token::Claim)[0] != fixed_text(Token::ForIn)[0]);
        assert(fixed_text(Token::Other)[0] != fixed_text(Token::While)[0]);
        assert(fixed_text(Token::Other)[0] != fixed_text(Token::ForIn)[0]);
        assert(fixed_text(Token::While)[0] != fixed_text(Token::ForIn)[0]);
    }
    if w.len() == 6 {
        assert(fixed_text(Token::Always)[0] != fixed_text(Token::Whence)[0]);
    }
}

/// Longest match over the fixed-text tokens: where the text of a fixed token
/// occurs, the classifier consumes at least that much and finds a token or
/// skipped text, never unrecognized input or an unclosed string, and
/// where it consumes exactly that much it emits that token. So `+=` is never
/// `+` then `=`, and a keyword wins over an identifier of the same text.
pub proof fn lemma_longest_fixed_match(s: Seq<u8>, p: int, t: Token)
    requires
        0 <= p < s.len(),
        fixed_text(t).len() > 0,
        occurs_at(s, p, fixed_text(t)),
    ensures
        !(step_at(s, p).0 is Unrecognized),
        step_at(s, p).0 != Outcome::Emit(Token::UnclosedString),
        fixed_text(t).len() <= step_at(s, p).1,
        fixed_text(t).len() == step_at(s, p).1 ==> step_at(s, p).0 == Outcome::Emit(t),
{
    let text = fixed_text(t);
    let k = text.len() as int;
    assert forall|j: int| 0 <= j < k implies s[p + j] == #[trigger] text[j] by {
        assert(s.subrange(p, p + k)[j] == s[p + j]);
    }
    lemma_step_bounds(s, p);
    if is_keyword(t) {
        assert forall|j: int| p <= j < p + k implies in_class(ByteClass::Word, #[trigger] s[j]) by {
            assert(s[p + (j - p)] == text[j - p]);
        }
        lemma_run_covers(s, p, ByteClass::Word, k);
        assert(s[p] == text[0]);
        let n = run(s, p, ByteClass::Word);
        if n == k {
            lemma_keyword_spelled(t);
            assert(s.subrange(p, p + n) == text);
            assert(step_at(s, p).0 == Outcome::Emit(t));
        }
    } else {
        assert(s[p] == text[0]);
        if k == 2 {
            assert(s[p + 1] == text[1]);
        } else {
            if p + 3 <= s.len() {
                lemma_run_bounds(s, p + 3, ByteClass::NotNewline);
            }
        }
    }
}

/// Words and numbers are maximal: the byte after an identifier or keyword is
/// no letter, digit or underscore, and the byte after a number is no digit.
pub proof fn lemma_longest_pattern_match(s: Seq<u8>, p: int)
    requires
        0 <= p < s.len(),
    ensures
        ({
            let n = step_at(s, p).1;
            &&& is_word_start(s[p]) ==> !(p + n < s.len() && in_class(ByteClass::Word, s[p + n]))
            &&& step_at(s, p).0 == Outcome::Emit(Token::Number) ==> !(p + n < s.len() && is_digit(
                s[p + n],
            ))
        }),
{
    lemma_run_bounds(s, p, ByteClass::Word);
    lemma_run_bounds(s, p, ByteClass::Digit);
    let d = run(s, p, ByteClass::Digit);
    if p + d + 1 <= s.len() {
        lemma_run_bounds(s, p + d + 1, ByteClass::Digit);
    }
}

/// Whether `bytes` holds `b` at index `i`.
fn byte_is(bytes: &[u8], i: usize, b: u8) -> (r: bool)
    ensures
        r == byte_at(bytes@, i as int, b),
{
    i < bytes.len() && bytes[i] == b
}

fn one_or_two_at(bytes: &[u8], p: usize, second: u8, long: Token, short: Token) -> (r: (Outcome, usize))
    requires
        p < bytes@.len(),
    ensures
        r.0 == one_or_two(bytes@, p as int, second, long, short).0,
        r.1 == one_or_two(bytes@, p as int, second, long, short).1,
{
    if bytes.len() - p > 1 && bytes[p + 1] == second {
        (Outcome::Emit(long), 2)
    } else {
        (Outcome::Emit(short), 1)
    }
}

/// Classifies the input at `p`: the rule with the longest match wins, and a
/// keyword wins over an identifier of the same text. An opening quote that
/// never closes is `UnclosedString`, reaching to the next quote or the end.
pub fn classify(bytes: &[u8], p: usize) -> (r: (Outcome, usize))
    requires
        p < bytes@.len(),
    ensures
        r.0 == step_at(bytes@, p as int).0,
        r.1 == step_at(bytes@, p as int).1,
        1 <= r.1 <= bytes@.len() - p,
{
    proof {
        lemma_step_bounds(bytes@, p as int);
    }
    let b = bytes[p];
    if class_holds(ByteClass::Blank, b) {
        (Outcome::Skip, run_end(bytes, p, ByteClass::Blank) - p)
    } else if class_holds(ByteClass::Digit, b) {
        let d = run_end(bytes, p, ByteClass::Digit);
        if byte_is(bytes, d, '.' as u8) {
            let f = run_end(bytes, d + 1, ByteClass::Digit);
            if f > d + 1 {
                return (Outcome::Emit(Token::Number), f - p);
            }
        }
        (Outcome::Emit(Token::Number), d - p)
    } else if class_holds(ByteClass::Word, b) {
        let e = run_end(bytes, p, ByteClass::Word);
        (Outcome::Emit(classify_word(bytes, p, e)), e - p)
    } else if b == '"' as u8 {
        match find_string_close(bytes, p + 1) {
            Some(k) => (Outcome::Emit(Token::String), k + 1 - p),
            None => (Outcome::Emit(Token::UnclosedString), run_end(bytes, p + 1, ByteClass::NotQuote) - p),
        }
    } else if b == '-' as u8 {
        if byte_is(bytes, p + 1, '#' as u8) && byte_is(bytes, p + 2, '-' as u8) {
            (Outcome::Skip, run_end(bytes, p + 3, ByteClass::NotNewline) - p)
        } else if byte_is(bytes, p + 1, '>' as u8) {
            (Outcome::Emit(Token::LeftPointer), 2)
        } else if byte_is(bytes, p + 1, '=' as u8) {
            (Outcome::Emit(Token::MinusEqual), 2)
        } else {
            one_or_two_at(bytes, p, '-' as u8, Token::Decrement, Token::Minus)
        }
    } else if b == '<' as u8 {
        if byte_is(bytes, p + 1, '-' as u8) {
            (Outcome::Emit(Token::RightPointer), 2)
        } else {
            one_or_two_at(bytes, p, '=' as u8, Token::LessThanOrEqual, Token::LessThan)
        }
    } else if b == '+' as u8 {
        if byte_is(bytes, p + 1, '+' as u8) {
            (Outcome::Emit(Token::Increment), 2)
        } else {
            one_or_two_at(bytes, p, '=' as u8, Token::PlusEqual, Token::Plus)
        }
    } else if b == '*' as u8 {
        one_or_two_at(bytes, p, '=' as u8, Token::MultiplyEqual, Token::Multiply)
    } else if b == '/' as u8 {
        one_or_two_at(bytes, p, '=' as u8, Token::DivideEqual, Token::Divide)
    } else if b == '=' as u8 {
        one_or_two_at(bytes, p, '=' as u8, Token::Equal, Token::Assign)
    } else if b == '>' as u8 {
        one_or_two_at(bytes, p, '=' as u8, Token::GreaterThanOrEqual, Token::GreaterThan)
    } else if b == '!' as u8 && byte_is(bytes, p + 1, '=' as u8) {
        (Outcome::Emit(Token::NotEqual), 2)
    } else if b == ':' as u8 && byte_is(bytes, p + 1, ':' as u8) {
        (Outcome::Emit(Token::DoubleColon), 2)
    } else if b == '|' as u8 {
        (Outcome::Emit(Token::Pipe), 1)
    } else if b == '[' as u8 {
        (Outcome::Emit(Token::OpenBracket), 1)
    } else if b == ']' as u8 {
        (Outcome::Emit(Token::CloseBracket), 1)
    } else if b == '?' as u8 {
        (Outcome::Emit(Token::QuestionMark), 1)
    } else {
        (Outcome::Unrecognized, run_end(bytes, p + 1, ByteClass::Continuation) - p)
    }
}

} // verus!
