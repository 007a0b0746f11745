//! The lexer: it turns source text into tokens, one call at a time.
//!
//! The model of lexing is [`spec_next`]: from a text and a position it gives the
//! next token and the position after it. [`lex_all`] is the whole token stream
//! from a position, up to and including the first end-of-input token.
use vstd::prelude::*;
use vstd::std_specs::iter::IteratorSpec;

verus! {

broadcast use vstd::string::group_string_axioms;

/// A token of the language.
#[derive(PartialEq, Debug)]
pub enum Token {
    Eof,
    Semicolon,
    Return,
    Number(i64),
    Plus,
    Minus,
    Asterisk,
    Slash,
    Illegal(String),
    /// A floating-point literal, held as its source text.
    Float(String),
    Identifier(String),
    Function,
    Var,
    Const,
    LeftParenthesis,
    RightParenthesis,
    LeftCurlyBrace,
    RightCurlyBrace,
    LeftBracket,
    RightBracket,
    Colon,
    Comma,
    Equals,
    Ampersand,
}

/// Model of a [`Token`]: texts become character sequences and a number's value
/// is a mathematical integer, which may exceed what an `i64` holds.
pub enum SToken {
    Eof,
    Semicolon,
    Return,
    Number(int),
    Plus,
    Minus,
    Asterisk,
    Slash,
    Illegal(Seq<char>),
    Float(Seq<char>),
    Identifier(Seq<char>),
    Function,
    Var,
    Const,
    LeftParenthesis,
    RightParenthesis,
    LeftCurlyBrace,
    RightCurlyBrace,
    LeftBracket,
    RightBracket,
    Colon,
    Comma,
    Equals,
    Ampersand,
}

impl View for Token {
    type V = SToken;

    open spec fn view(&self) -> SToken {
        match *self {
            Token::Eof => SToken::Eof,
            Token::Semicolon => SToken::Semicolon,
            Token::Return => SToken::Return,
            Token::Number(n) => SToken::Number(n as int),
            Token::Plus => SToken::Plus,
            Token::Minus => SToken::Minus,
            Token::Asterisk => SToken::Asterisk,
            Token::Slash => SToken::Slash,
            Token::Illegal(s) => SToken::Illegal(s@),
            Token::Float(s) => SToken::Float(s@),
            Token::Identifier(s) => SToken::Identifier(s@),
            Token::Function => SToken::Function,
            Token::Var => SToken::Var,
            Token::Const => SToken::Const,
            Token::LeftParenthesis => SToken::LeftParenthesis,
            Token::RightParenthesis => SToken::RightParenthesis,
            Token::LeftCurlyBrace => SToken::LeftCurlyBrace,
            Token::RightCurlyBrace => SToken::RightCurlyBrace,
            Token::LeftBracket => SToken::LeftBracket,
            Token::RightBracket => SToken::RightBracket,
            Token::Colon => SToken::Colon,
            Token::Comma => SToken::Comma,
            Token::Equals => SToken::Equals,
            Token::Ampersand => SToken::Ampersand,
        }
    }
}

/// Whether `c` has the Unicode `White_Space` property.
pub open spec fn spec_is_whitespace(c: char) -> bool {
    ||| '\u{9}' <= c <= '\u{d}'
    ||| c == ' '
    ||| c == '\u{85}'
    ||| c == '\u{a0}'
    ||| c == '\u{1680}'
    ||| '\u{2000}' <= c <= '\u{200a}'
    ||| c == '\u{2028}'
    ||| c == '\u{2029}'
    ||| c == '\u{202f}'
    ||| c == '\u{205f}'
    ||| c == '\u{3000}'
}

pub open spec fn spec_is_digit(c: char) -> bool {
    '0' <= c <= '9'
}

/// A character that may begin an identifier or keyword.
pub open spec fn spec_is_ident_start(c: char) -> bool {
    'a' <= c <= 'z' || 'A' <= c <= 'Z' || c == '_'
}

/// A character that may continue an identifier or keyword.
pub open spec fn spec_is_ident_char(c: char) -> bool {
    spec_is_ident_start(c) || spec_is_digit(c)
}

/// The first index at or after `i` whose character is not whitespace.
pub open spec fn skip_ws(s: Seq<char>, i: int) -> int
    decreases s.len() - i,
{
    if 0 <= i < s.len() && spec_is_whitespace(s[i]) {
        skip_ws(s, i + 1)
    } else {
        i
    }
}

/// The first index at or after `i` whose character is not a decimal digit.
pub open spec fn digits_end(s: Seq<char>, i: int) -> int
    decreases s.len() - i,
{
    if 0 <= i < s.len() && spec_is_digit(s[i]) {
        digits_end(s, i + 1)
    } else {
        i
    }
}

/// The first index at or after `i` whose character cannot continue an identifier.
pub open spec fn ident_end(s: Seq<char>, i: int) -> int
    decreases s.len() - i,
{
    if 0 <= i < s.len() && spec_is_ident_char(s[i]) {
        ident_end(s, i + 1)
    } else {
        i
    }
}

/// The value of a decimal digit.
pub open spec fn digit_value(c: char) -> int {
    c as int - '0' as int
}

/// The value of a string of decimal digits.
pub open spec fn digits_value(d: Seq<char>) -> int
    decreases d.len(),
{
    if d.len() == 0 {
        0
    } else {
        10 * digits_value(d.drop_last()) + digit_value(d.last())
    }
}

/// Whether a run of digits ending at `j` goes on as a fraction: a `.` and a digit.
pub open spec fn fraction_follows(s: Seq<char>, j: int) -> bool {
    0 <= j && j + 1 < s.len() && s[j] == '.' && spec_is_digit(s[j + 1])
}

/// The token that a word (a maximal run of identifier characters) stands for.
pub open spec fn word_token(w: Seq<char>) -> SToken {
    if w == seq!['r', 'e', 't', 'u', 'r', 'n'] {
        SToken::Return
    } else if w == seq!['f', 'u', 'n', 'c'] {
        SToken::Function
    } else if w == seq!['v', 'a', 'r'] {
        SToken::Var
    } else if w == seq!['c', 'o', 'n', 's', 't'] {
        SToken::Const
    } else {
        SToken::Identifier(w)
    }
}

/// The token made of the single punctuation character `c`, if it is one.
pub open spec fn punctuation(c: char) -> Option<SToken> {
    if c == ';' {
        Some(SToken::Semicolon)
    } else if c == '+' {
        Some(SToken::Plus)
    } else if c == '-' {
        Some(SToken::Minus)
    } else if c == '*' {
        Some(SToken::Asterisk)
    } else if c == '/' {
        Some(SToken::Slash)
    } else if c == '(' {
        Some(SToken::LeftParenthesis)
    } else if c == ')' {
        Some(SToken::RightParenthesis)
    } else if c == '{' {
        Some(SToken::LeftCurlyBrace)
    } else if c == '}' {
        Some(SToken::RightCurlyBrace)
    } else if c == '[' {
        Some(SToken::LeftBracket)
    } else if c == ']' {
        Some(SToken::RightBracket)
    } else if c == ':' {
        Some(SToken::Colon)
    } else if c == ',' {
        Some(SToken::Comma)
    } else if c == '=' {
        Some(SToken::Equals)
    } else if c == '&' {
        Some(SToken::Ampersand)
    } else {
        None
    }
}

/// The token of text `s` that starts at the non-whitespace index `i`, and the
/// index after it.
pub open spec fn token_at(s: Seq<char>, i: int) -> (SToken, int) {
    if !(0 <= i < s.len()) {
        (SToken::Eof, i)
    } else {
        let c = s[i];
        match punctuation(c) {
            Some(t) => (t, i + 1),
            None => if spec_is_digit(c) {
                let j = digits_end(s, i + 1);
                if fraction_follows(s, j) {
                    let k = digits_end(s, j + 1);
                    (SToken::Float(s.subrange(i, k)), k)
                } else {
                    (SToken::Number(digits_value(s.subrange(i, j))), j)
                }
            } else if spec_is_ident_start(c) {
                let j = ident_end(s, i + 1);
                (word_token(s.subrange(i, j)), j)
            } else {
                (SToken::Illegal(seq![c]), i + 1)
            },
        }
    }
}

/// The next token of text `s` from position `p`, and the position after it:
/// whitespace is skipped, then one token is read.
pub open spec fn spec_next(s: Seq<char>, p: int) -> (SToken, int) {
    token_at(s, skip_ws(s, p))
}

/// Whether a token can be held by [`Token`]: a number must fit in an `i64`.
pub open spec fn token_fits(t: SToken) -> bool {
    match t {
        SToken::Number(n) => n <= i64::MAX,
        _ => true,
    }
}

pub proof fn lemma_skip_ws_bounds(s: Seq<char>, i: int)
    ensures
        skip_ws(s, i) >= i,
        0 <= i <= s.len() ==> skip_ws(s, i) <= s.len(),
        0 <= skip_ws(s, i) < s.len() ==> !spec_is_whitespace(s[skip_ws(s, i)]),
        forall|k: int| i <= k < skip_ws(s, i) ==> spec_is_whitespace(#[trigger] s[k]),
    decreases s.len() - i,
{
    if 0 <= i < s.len() && spec_is_whitespace(s[i]) {
        lemma_skip_ws_bounds(s, i + 1);
    }
}

pub proof fn lemma_digits_end_bounds(s: Seq<char>, i: int)
    ensures
        digits_end(s, i) >= i,
        0 <= i <= s.len() ==> digits_end(s, i) <= s.len(),
        forall|k: int| i <= k < digits_end(s, i) ==> spec_is_digit(#[trigger] s[k]),
        0 <= digits_end(s, i) < s.len() ==> !spec_is_digit(s[digits_end(s, i)]),
    decreases s.len() - i,
{
    if 0 <= i < s.len() && spec_is_digit(s[i]) {
        lemma_digits_end_bounds(s, i + 1);
    }
}

pub proof fn lemma_ident_end_bounds(s: Seq<char>, i: int)
    ensures
        ident_end(s, i) >= i,
        0 <= i <= s.len() ==> ident_end(s, i) <= s.len(),
        forall|k: int| i <= k < ident_end(s, i) ==> spec_is_ident_char(#[trigger] s[k]),
        0 <= ident_end(s, i) < s.len() ==> !spec_is_ident_char(s[ident_end(s, i)]),
    decreases s.len() - i,
{
    if 0 <= i < s.len() && spec_is_ident_char(s[i]) {
        lemma_ident_end_bounds(s, i + 1);
    }
}

/// Lexing never moves backwards, stays within the text, and reading a token
/// other than end-of-input consumes at least one character.
pub proof fn lemma_next_progress(s: Seq<char>, p: int)
    requires
        0 <= p <= s.len(),
    ensures
        p <= spec_next(s, p).1 <= s.len(),
        !(spec_next(s, p).0 is Eof) ==> p < spec_next(s, p).1,
        spec_next(s, p).0 is Eof ==> spec_next(s, p).1 == s.len(),
{
    lemma_skip_ws_bounds(s, p);
    let i = skip_ws(s, p);
    if 0 <= i < s.len() {
        lemma_digits_end_bounds(s, i + 1);
        let j = digits_end(s, i + 1);
        lemma_digits_end_bounds(s, j + 1);
        lemma_ident_end_bounds(s, i + 1);
    }
}

/// The tokens of text `s` from position `p`, up to and including the first
/// end-of-input token.
pub open spec fn lex_all(s: Seq<char>, p: int) -> Seq<SToken>
    decreases s.len() - p,
{
    if !(0 <= p <= s.len()) {
        seq![SToken::Eof]
    } else {
        let (t, q) = spec_next(s, p);
        if t is Eof {
            seq![t]
        } else {
            proof {
                lemma_next_progress(s, p);
            }
            seq![t] + lex_all(s, q)
        }
    }
}

/// The whole token stream of a text.
pub open spec fn tokenize(s: Seq<char>) -> Seq<SToken> {
    lex_all(s, 0)
}

/// Once the text is used up, the lexer gives end-of-input again and again,
/// without moving.
pub proof fn law_eof_is_final(s: Seq<char>, p: int)
    requires
        0 <= p <= s.len(),
        spec_next(s, p).0 is Eof,
    ensures
        spec_next(s, spec_next(s, p).1) == spec_next(s, p),
{
    lemma_next_progress(s, p);
    lemma_skip_ws_bounds(s, s.len() as int);
}

/// The lexer gives end-of-input exactly when only whitespace is left from
/// its position, and then it has read the whole text.
pub proof fn law_eof_iff_only_whitespace(s: Seq<char>, p: int)
    requires
        0 <= p <= s.len(),
    ensures
        (spec_next(s, p).0 is Eof) <==> (forall|k: int|
            p <= k < s.len() ==> spec_is_whitespace(#[trigger] s[k])),
        spec_next(s, p).0 is Eof ==> spec_next(s, p).1 == s.len(),
{
    lemma_skip_ws_bounds(s, p);
    lemma_next_progress(s, p);
    let i = skip_ws(s, p);
    if i < s.len() {
        assert(!spec_is_whitespace(s[i]));
        assert(!(spec_next(s, p).0 is Eof));
    }
}

/// A text of `n` characters lexes to at most `n + 1` tokens: the lexer
/// reaches end-of-input within that many calls.
pub proof fn law_token_count_bound(s: Seq<char>, p: int)
    requires
        0 <= p <= s.len(),
    ensures
        lex_all(s, p).len() <= s.len() - p + 1,
    decreases s.len() - p,
{
    lemma_next_progress(s, p);
    let (t, q) = spec_next(s, p);
    if !(t is Eof) {
        law_token_count_bound(s, q);
    }
}

proof fn lemma_skip_ws_shift(pre: Seq<char>, s: Seq<char>, q: int)
    requires
        0 <= q <= s.len(),
    ensures
        skip_ws(pre + s, pre.len() + q) == pre.len() + skip_ws(s, q),
    decreases s.len() - q,
{
    if q < s.len() {
        assert((pre + s)[pre.len() + q] == s[q]);
        if spec_is_whitespace(s[q]) {
            lemma_skip_ws_shift(pre, s, q + 1);
        }
    }
}

proof fn lemma_digits_end_shift(pre: Seq<char>, s: Seq<char>, q: int)
    requires
        0 <= q <= s.len(),
    ensures
        digits_end(pre + s, pre.len() + q) == pre.len() + digits_end(s, q),
    decreases s.len() - q,
{
    if q < s.len() {
        assert((pre + s)[pre.len() + q] == s[q]);
        if spec_is_digit(s[q]) {
            lemma_digits_end_shift(pre, s, q + 1);
        }
    }
}

proof fn lemma_ident_end_shift(pre: Seq<char>, s: Seq<char>, q: int)
    requires
        0 <= q <= s.len(),
    ensures
        ident_end(pre + s, pre.len() + q) == pre.len() + ident_end(s, q),
    decreases s.len() - q,
{
    if q < s.len() {
        assert((pre + s)[pre.len() + q] == s[q]);
        if spec_is_ident_char(s[q]) {
            lemma_ident_end_shift(pre, s, q + 1);
        }
    }
}

/// Reading a token after a prefix reads what the text alone gives.
proof fn lemma_next_shift(pre: Seq<char>, s: Seq<char>, q: int)
    requires
        0 <= q <= s.len(),
    ensures
        spec_next(pre + s, pre.len() + q) == (spec_next(s, q).0, pre.len() + spec_next(s, q).1),
{
    let t = pre + s;
    let n = pre.len() as int;
    lemma_skip_ws_shift(pre, s, q);
    lemma_skip_ws_bounds(s, q);
    let i = skip_ws(s, q);
    if i < s.len() {
        assert(t[n + i] == s[i]);
        lemma_digits_end_shift(pre, s, i + 1);
        lemma_digits_end_bounds(s, i + 1);
        let j = digits_end(s, i + 1);
        if j < s.len() {
            assert(t[n + j] == s[j]);
        }
        if j + 1 < s.len() {
            assert(t[n + j + 1] == s[j + 1]);
        }
        assert(fraction_follows(t, n + j) == fraction_follows(s, j));
        assert(t.subrange(n + i, n + j) =~= s.subrange(i, j));
        if fraction_follows(s, j) {
            lemma_digits_end_shift(pre, s, j + 1);
            lemma_digits_end_bounds(s, j + 1);
            let k = digits_end(s, j + 1);
            assert(t.subrange(n + i, n + k) =~= s.subrange(i, k));
        }
        lemma_ident_end_shift(pre, s, i + 1);
        lemma_ident_end_bounds(s, i + 1);
        let j2 = ident_end(s, i + 1);
        assert(t.subrange(n + i, n + j2) =~= s.subrange(i, j2));
    }
}

/// The tokens after a prefix are the tokens of the text alone.
proof fn lemma_lex_all_shift(pre: Seq<char>, s: Seq<char>, q: int)
    requires
        0 <= q <= s.len(),
    ensures
        lex_all(pre + s, pre.len() + q) == lex_all(s, q),
    decreases s.len() - q,
{
    lemma_next_shift(pre, s, q);
    lemma_next_progress(s, q);
    let (t, q2) = spec_next(s, q);
    if !(t is Eof) {
        lemma_lex_all_shift(pre, s, q2);
    }
}

proof fn lemma_skip_ws_run(s: Seq<char>, a: int, b: int)
    requires
        0 <= a <= b <= s.len(),
        forall|k: int| a <= k < b ==> spec_is_whitespace(#[trigger] s[k]),
    ensures
        skip_ws(s, a) == skip_ws(s, b),
    decreases b - a,
{
    if a < b {
        lemma_skip_ws_run(s, a + 1, b);
    }
}

/// Whitespace put before a text does not change its tokens.
pub proof fn law_leading_whitespace(w: Seq<char>, s: Seq<char>)
    requires
        forall|k: int| 0 <= k < w.len() ==> spec_is_whitespace(#[trigger] w[k]),
    ensures
        tokenize(w + s) == tokenize(s),
{
    let t = w + s;
    let n = w.len() as int;
    assert forall|k: int| 0 <= k < n implies spec_is_whitespace(#[trigger] t[k]) by {
        assert(t[k] == w[k]);
    }
    lemma_skip_ws_run(t, 0, n);
    assert(spec_next(t, 0) == spec_next(t, n));
    lemma_lex_all_shift(w, s, 0);
    lemma_next_progress(t, 0);
    assert(lex_all(t, 0) == lex_all(t, n));
}

/// The code points of the characters with the Unicode `White_Space` property.
pub open spec fn white_space_code_points() -> Set<u32> {
    set![
        0x9u32, 0xa, 0xb, 0xc, 0xd, 0x20, 0x85, 0xa0, 0x1680, 0x2000, 0x2001, 0x2002, 0x2003,
        0x2004, 0x2005, 0x2006, 0x2007, 0x2008, 0x2009, 0x200a, 0x2028, 0x2029, 0x202f, 0x205f,
        0x3000,
    ]
}

/// A character alone lexes to no token exactly when it has the Unicode
/// `White_Space` property (tab, line feed, carriage return, space, and the
/// rest); and such a character put before a text, as the `\r` of a CRLF line
/// end, leaves the text's tokens unchanged.
pub proof fn law_whitespace_is_unicode_white_space(c: char, s: Seq<char>)
    ensures
        (tokenize(seq![c]) == seq![SToken::Eof]) <==> white_space_code_points().contains(c as u32),
        white_space_code_points().contains(c as u32) ==> tokenize(seq![c] + s) == tokenize(s),
{
    let one = seq![c];
    law_eof_iff_only_whitespace(one, 0);
    lemma_next_progress(one, 0);
    assert(spec_is_whitespace(c) <==> white_space_code_points().contains(c as u32));
    if spec_is_whitespace(c) {
        assert(forall|k: int| 0 <= k < one.len() ==> spec_is_whitespace(#[trigger] one[k]));
        assert(spec_next(one, 0).0 is Eof);
        assert(tokenize(one) == seq![SToken::Eof]);
        law_leading_whitespace(one, s);
    } else {
        assert(one[0] == c);
        assert(!(spec_next(one, 0).0 is Eof));
        let t = spec_next(one, 0).0;
        assert(tokenize(one)[0] == t);
        assert(tokenize(one) != seq![SToken::Eof]) by {
            if tokenize(one) == seq![SToken::Eof] {
                assert(tokenize(one)[0] == SToken::Eof);
            }
        }
    }
}

// ---------------------------------------------------------------------------
// Character classes
// ---------------------------------------------------------------------------

/// Whether `c` has the Unicode `White_Space` property.
pub fn is_whitespace(c: char) -> (r: bool)
    ensures
        r == spec_is_whitespace(c),
{
    ('\u{9}' <= c && c <= '\u{d}') || c == ' ' || c == '\u{85}' || c == '\u{a0}' || c == '\u{1680}'
        || ('\u{2000}' <= c && c <= '\u{200a}') || c == '\u{2028}' || c == '\u{2029}' || c
        == '\u{202f}' || c == '\u{205f}' || c == '\u{3000}'
}

pub fn is_digit(c: char) -> (r: bool)
    ensures
        r == spec_is_digit(c),
{
    '0' <= c && c <= '9'
}

pub fn is_ident_start(c: char) -> (r: bool)
    ensures
        r == spec_is_ident_start(c),
{
    ('a' <= c && c <= 'z') || ('A' <= c && c <= 'Z') || c == '_'
}

pub fn is_ident_char(c: char) -> (r: bool)
    ensures
        r == spec_is_ident_char(c),
{
    is_ident_start(c) || is_digit(c)
}

// ---------------------------------------------------------------------------
// Trusted std calls
// ---------------------------------------------------------------------------

/// `String::push`: the string afterwards is the string before with `c` appended.
#[verifier::external_body]
fn push_char(s: &mut String, c: char)
    ensures
        final(s)@ == old(s)@.push(c),
{
    s.push(c);
}

/// The characters of a string, in order.
fn chars_of(input: &str) -> (v: Vec<char>)
    ensures
        v@ == input@,
{
    let mut v: Vec<char> = Vec::new();
    let mut it = input.chars();
    loop
        invariant
            it.remaining() == input@.skip(v.len() as int),
            v@ == input@.take(v.len() as int),
            v.len() <= input@.len(),
        ensures
            v@ == input@,
        decreases input@.len() - v.len(),
    {
        match it.next() {
            Some(c) => {
                v.push(c);
            },
            None => {
                assert(v@ =~= input@);
                break ;
            },
        }
    }
    v
}

/// The string made of the characters `chars[start..end]`.
fn string_of(chars: &Vec<char>, start: usize, end: usize) -> (r: String)
    requires
        start <= end <= chars.len(),
    ensures
        r@ == chars@.subrange(start as int, end as int),
{
    let mut r = String::new();
    let mut i = start;
    while i < end
        invariant
            start <= i <= end <= chars.len(),
            r@ == chars@.subrange(start as int, i as int),
        decreases end - i,
    {
        push_char(&mut r, chars[i]);
        assert(r@ =~= chars@.subrange(start as int, i + 1));
        i = i + 1;
    }
    r
}

/// Whether `chars[start..end]` is the word `kw`.
fn word_is(chars: &Vec<char>, start: usize, end: usize, kw: &[char]) -> (r: bool)
    requires
        start <= end <= chars.len(),
    ensures
        r == (chars@.subrange(start as int, end as int) == kw@),
{
    if end - start != kw.len() {
        return false;
    }
    let mut i: usize = 0;
    while i < kw.len()
        invariant
            start <= end <= chars.len(),
            end - start == kw@.len(),
            i <= kw.len(),
            forall|j: int| 0 <= j < i ==> chars@[start + j] == kw@[j],
        decreases kw.len() - i,
    {
        if chars[start + i] != kw[i] {
            return false;
        }
        i = i + 1;
    }
    assert(chars@.subrange(start as int, end as int) =~= kw@);
    true
}

pub proof fn lemma_digits_value_nonneg(d: Seq<char>)
    requires
        forall|k: int| 0 <= k < d.len() ==> spec_is_digit(#[trigger] d[k]),
    ensures
        digits_value(d) >= 0,
    decreases d.len(),
{
    if d.len() > 0 {
        lemma_digits_value_nonneg(d.drop_last());
    }
}

/// A longer run of digits has at least the value of its prefix.
pub proof fn lemma_digits_value_mono(s: Seq<char>, a: int, k: int, j: int)
    requires
        0 <= a <= k <= j <= s.len(),
        forall|x: int| a <= x < j ==> spec_is_digit(#[trigger] s[x]),
    ensures
        digits_value(s.subrange(a, k)) <= digits_value(s.subrange(a, j)),
    decreases j - k,
{
    if k < j {
        lemma_digits_value_mono(s, a, k, j - 1);
        assert(s.subrange(a, j).drop_last() =~= s.subrange(a, j - 1));
        lemma_digits_value_nonneg(s.subrange(a, j - 1));
    }
}

// ---------------------------------------------------------------------------
// The lexer
// ---------------------------------------------------------------------------

/// A lexer over a source text; it hands out one token per call of
/// [`Lexer::next_token`].
pub struct Lexer<'a> {
    input: &'a str,
    chars: Vec<char>,
    pos: usize,
}

impl<'a> Lexer<'a> {
    /// The text being lexed.
    pub closed spec fn text(&self) -> Seq<char> {
        self.chars@
    }

    /// The position of the next character to read.
    pub closed spec fn position(&self) -> int {
        self.pos as int
    }

    /// The lexer's invariant.
    pub closed spec fn wf(&self) -> bool {
        &&& self.pos <= self.chars.len()
        &&& self.chars@ == self.input@
    }

    pub proof fn lemma_wf(&self)
        requires
            self.wf(),
        ensures
            0 <= self.position() <= self.text().len(),
    {
    }

    /// A lexer at the start of `input`.
    pub fn new(input: &'a str) -> (l: Self)
        ensures
            l.wf(),
            l.text() == input@,
            l.position() == 0,
    {
        let chars = chars_of(input);
        Lexer { input, chars, pos: 0 }
    }

    /// Reads the next token. At the end of the text it gives [`Token::Eof`],
    /// and goes on giving it.
    pub fn next_token(&mut self) -> (t: Token)
        requires
            old(self).wf(),
            token_fits(spec_next(old(self).text(), old(self).position()).0),
        ensures
            final(self).wf(),
            final(self).text() == old(self).text(),
            (t@, final(self).position()) == spec_next(old(self).text(), old(self).position()),
    {
        self.try_next_token().unwrap()
    }

    /// Reads the next token, as [`Lexer::next_token`] does; `None` when it is a
    /// number too large for an `i64`, where [`Lexer::next_token`] panics.
    pub fn try_next_token(&mut self) -> (t: Option<Token>)
        requires
            old(self).wf(),
        ensures
            final(self).wf(),
            final(self).text() == old(self).text(),
            token_fits(spec_next(old(self).text(), old(self).position()).0) ==> (t matches Some(x)
                && (x@, final(self).position()) == spec_next(
                old(self).text(),
                old(self).position(),
            )),
            !token_fits(spec_next(old(self).text(), old(self).position()).0) ==> t is None,
    {
        let ghost s = self.chars@;
        let ghost p = self.pos as int;
        while self.pos < self.chars.len() && is_whitespace(self.chars[self.pos])
            invariant
                self.wf(),
                self.chars@ == s,
                p <= self.pos <= s.len(),
                skip_ws(s, p) == skip_ws(s, self.pos as int),
            decreases self.chars.len() - self.pos,
        {
            self.pos = self.pos + 1;
        }
        if self.pos >= self.chars.len() {
            return Some(Token::Eof);
        }
        let ch = self.chars[self.pos];
        self.pos = self.pos + 1;
        let t = if ch == ';' {
            Token::Semicolon
        } else if ch == '+' {
            Token::Plus
        } else if ch == '-' {
            Token::Minus
        } else if ch == '*' {
            Token::Asterisk
        } else if ch == '/' {
            Token::Slash
        } else if ch == '(' {
            Token::LeftParenthesis
        } else if ch == ')' {
            Token::RightParenthesis
        } else if ch == '{' {
            Token::LeftCurlyBrace
        } else if ch == '}' {
            Token::RightCurlyBrace
        } else if ch == '[' {
            Token::LeftBracket
        } else if ch == ']' {
            Token::RightBracket
        } else if ch == ':' {
            Token::Colon
        } else if ch == ',' {
            Token::Comma
        } else if ch == '=' {
            Token::Equals
        } else if ch == '&' {
            Token::Ampersand
        } else if is_digit(ch) {
            return self.lex_number(ch);
        } else if is_ident_start(ch) {
            self.lex_identifier(ch)
        } else {
            let mut text = String::new();
            push_char(&mut text, ch);
            assert(text@ =~= seq![ch]);
            Token::Illegal(text)
        };
        Some(t)
    }

    /// The index after the run of characters of one class that starts at `from`.
    fn scan_digits(&self, from: usize) -> (j: usize)
        requires
            self.wf(),
            from <= self.chars.len(),
        ensures
            j == digits_end(self.text(), from as int),
    {
        let mut j = from;
        while j < self.chars.len() && is_digit(self.chars[j])
            invariant
                self.wf(),
                from <= j <= self.chars.len(),
                digits_end(self.text(), from as int) == digits_end(self.text(), j as int),
            decreases self.chars.len() - j,
        {
            j = j + 1;
        }
        j
    }

    /// Reads a number whose first digit `first` was just read: an integer, or a
    /// floating-point literal where the digits go on with `.` and a digit.
    /// `None` when the integer is too large for an `i64`.
    fn lex_number(&mut self, first: char) -> (t: Option<Token>)
        requires
            old(self).wf(),
            1 <= old(self).position(),
            old(self).text()[old(self).position() - 1] == first,
            spec_is_digit(first),
        ensures
            final(self).wf(),
            final(self).text() == old(self).text(),
            token_fits(token_at(old(self).text(), old(self).position() - 1).0) ==> (t matches Some(x)
                && (x@, final(self).position()) == token_at(
                old(self).text(),
                old(self).position() - 1,
            )),
            !token_fits(token_at(old(self).text(), old(self).position() - 1).0) ==> t is None,
    {
        let ghost s = self.chars@;
        let start = self.pos - 1;
        proof {
            assert(punctuation(first) is None);
            lemma_digits_end_bounds(s, self.pos as int);
        }
        let j = self.scan_digits(self.pos);
        if j < self.chars.len() && j + 1 < self.chars.len() && self.chars[j] == '.' && is_digit(
            self.chars[j + 1],
        ) {
            proof {
                lemma_digits_end_bounds(s, j + 1);
            }
            let k = self.scan_digits(j + 1);
            self.pos = k;
            return Some(Token::Float(string_of(&self.chars, start, k)));
        }
        proof {
            assert(forall|x: int| start <= x < j ==> spec_is_digit(#[trigger] s[x])) by {
                assert(s[start as int] == first);
            }
        }
        let mut value: i64 = 0;
        let mut i = start;
        while i < j
            invariant
                self.wf(),
                self.chars@ == s,
                start <= i <= j <= s.len(),
                j == digits_end(s, start + 1),
                s == old(self).text(),
                start == old(self).position() - 1,
                !fraction_follows(s, j as int),
                forall|x: int| start <= x < j ==> spec_is_digit(#[trigger] s[x]),
                value == digits_value(s.subrange(start as int, i as int)),
            decreases j - i,
        {
            let c = self.chars[i];
            let d = (c as u32 - '0' as u32) as i64;
            proof {
                assert(s.subrange(start as int, i + 1).drop_last() =~= s.subrange(
                    start as int,
                    i as int,
                ));
                lemma_digits_value_mono(s, start as int, i + 1, j as int);
                lemma_digits_value_nonneg(s.subrange(start as int, i as int));
            }
            let next = match value.checked_mul(10) {
                Some(v) => v.checked_add(d),
                None => None,
            };
            value = match next {
                Some(v) => v,
                None => {
                    return None;
                },
            };
            i = i + 1;
        }
        self.pos = j;
        Some(Token::Number(value))
    }

    /// Reads a word whose first character `first` was just read: a keyword, or
    /// an identifier.
    fn lex_identifier(&mut self, first: char) -> (t: Token)
        requires
            old(self).wf(),
            1 <= old(self).position(),
            old(self).text()[old(self).position() - 1] == first,
            spec_is_ident_start(first),
        ensures
            final(self).wf(),
            final(self).text() == old(self).text(),
            (t@, final(self).position()) == token_at(old(self).text(), old(self).position() - 1),
    {
        let ghost s = self.chars@;
        let start = self.pos - 1;
        proof {
            assert(punctuation(first) is None);
            assert(!spec_is_digit(first));
        }
        let mut j = self.pos;
        while j < self.chars.len() && is_ident_char(self.chars[j])
            invariant
                self.wf(),
                self.chars@ == s,
                start < j <= s.len(),
                ident_end(s, start + 1) == ident_end(s, j as int),
            decreases self.chars.len() - j,
        {
            j = j + 1;
        }
        self.pos = j;
        let ghost w = s.subrange(start as int, j as int);
        let kw_return = ['r', 'e', 't', 'u', 'r', 'n'];
        let kw_func = ['f', 'u', 'n', 'c'];
        let kw_var = ['v', 'a', 'r'];
        let kw_const = ['c', 'o', 'n', 's', 't'];
        proof {
            assert(kw_return@ =~= seq!['r', 'e', 't', 'u', 'r', 'n']);
            assert(kw_func@ =~= seq!['f', 'u', 'n', 'c']);
            assert(kw_var@ =~= seq!['v', 'a', 'r']);
            assert(kw_const@ =~= seq!['c', 'o', 'n', 's', 't']);
        }
        if word_is(&self.chars, start, j, &kw_return) {
            Token::Return
        } else if word_is(&self.chars, start, j, &kw_func) {
            Token::Function
        } else if word_is(&self.chars, start, j, &kw_var) {
            Token::Var
        } else if word_is(&self.chars, start, j, &kw_const) {
            Token::Const
        } else {
            Token::Identifier(string_of(&self.chars, start, j))
        }
    }
}

} // verus!
