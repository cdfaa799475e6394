use vstd::prelude::*;

use crate::text::{chars_of, string_of};

verus! {

/// What can go wrong while splitting text into tokens.
#[derive(Debug, PartialEq, Eq, Clone, Copy)]
pub enum TokenizeError {
    /// `n`, `t` or `f` began a keyword that was not spelled out in full.
    UnfinishedLiteralValue,
    /// A numeral broke the number grammar.
    InvalidNumber,
    /// The text ended inside a string literal.
    UnterminatedString,
    /// A character that can begin no token.
    UnexpectedCharacter(char),
}

/// A lexical unit of JSON text.
#[derive(Debug, PartialEq)]
pub enum Token {
    /// `{`
    LeftBrace,
    /// `}`
    RightBrace,
    /// `[`
    LeftBracket,
    /// `]`
    RightBracket,
    /// `,`
    Comma,
    /// `:`
    Colon,
    /// `null`
    Null,
    /// `false`
    False,
    /// `true`
    True,
    /// A numeral, as it was written.
    Number(String),
    /// The raw text between the quotes of a string literal, escapes untouched.
    String(String),
}

/// The mathematical model of a [`Token`].
pub enum Lexeme {
    LeftBrace,
    RightBrace,
    LeftBracket,
    RightBracket,
    Comma,
    Colon,
    Null,
    False,
    True,
    Number(Seq<char>),
    Str(Seq<char>),
}

impl View for Token {
    type V = Lexeme;

    open spec fn view(&self) -> Lexeme {
        match self {
            Token::LeftBrace => Lexeme::LeftBrace,
            Token::RightBrace => Lexeme::RightBrace,
            Token::LeftBracket => Lexeme::LeftBracket,
            Token::RightBracket => Lexeme::RightBracket,
            Token::Comma => Lexeme::Comma,
            Token::Colon => Lexeme::Colon,
            Token::Null => Lexeme::Null,
            Token::False => Lexeme::False,
            Token::True => Lexeme::True,
            Token::Number(n) => Lexeme::Number(n@),
            Token::String(s) => Lexeme::Str(s@),
        }
    }
}

/// A token read from text, with the position just past it.
pub type Step = Result<(Lexeme, int), TokenizeError>;

/// The models of a sequence of tokens.
pub open spec fn lexemes(ts: Seq<Token>) -> Seq<Lexeme> {
    ts.map_values(|t: Token| t@)
}

pub open spec fn is_whitespace(c: char) -> bool {
    c == ' ' || c == '\t' || c == '\n' || c == '\r'
}

pub open spec fn is_digit(c: char) -> bool {
    '0' <= c && c <= '9'
}

/// The end of the run of decimal digits that starts at `i`.
pub open spec fn digits_end(cs: Seq<char>, i: int) -> int
    decreases cs.len() - i,
{
    if 0 <= i < cs.len() && is_digit(cs[i]) {
        digits_end(cs, i + 1)
    } else {
        i
    }
}

/// The end of the integer part of a numeral that starts at `i`: `0`, or a nonzero
/// digit followed by digits. `None` for a leading zero followed by a digit, or no digit.
pub open spec fn integer_part_end(cs: Seq<char>, i: int) -> Option<int> {
    if 0 <= i < cs.len() && cs[i] == '0' {
        if i + 1 < cs.len() && is_digit(cs[i + 1]) {
            None
        } else {
            Some(i + 1)
        }
    } else if 0 <= i < cs.len() && is_digit(cs[i]) {
        Some(digits_end(cs, i + 1))
    } else {
        None
    }
}

/// The end of an optional fraction (`.` and one or more digits) that starts at `i`.
pub open spec fn fraction_end(cs: Seq<char>, i: int) -> Option<int> {
    if 0 <= i < cs.len() && cs[i] == '.' {
        let e = digits_end(cs, i + 1);
        if e == i + 1 {
            None
        } else {
            Some(e)
        }
    } else {
        Some(i)
    }
}

/// The end of an optional exponent (`e` or `E`, an optional sign, one or more
/// digits) that starts at `i`.
pub open spec fn exponent_end(cs: Seq<char>, i: int) -> Option<int> {
    if 0 <= i < cs.len() && (cs[i] == 'e' || cs[i] == 'E') {
        let s = if i + 1 < cs.len() && (cs[i + 1] == '+' || cs[i + 1] == '-') {
            i + 2
        } else {
            i + 1
        };
        let e = digits_end(cs, s);
        if e == s {
            None
        } else {
            Some(e)
        }
    } else {
        Some(i)
    }
}

/// The end of the numeral that starts at `i`, or `None` where it is malformed.
pub open spec fn numeral_end(cs: Seq<char>, i: int) -> Option<int> {
    let a = if 0 <= i < cs.len() && cs[i] == '-' {
        i + 1
    } else {
        i
    };
    match integer_part_end(cs, a) {
        None => None,
        Some(b) => match fraction_end(cs, b) {
            None => None,
            Some(c) => exponent_end(cs, c),
        },
    }
}

/// The position of the quote that closes a string literal, scanning from `i`
/// with `escaped` telling whether the character at `i` is escaped.
pub open spec fn closing_quote(cs: Seq<char>, i: int, escaped: bool) -> Option<int>
    decreases cs.len() - i,
{
    if i < 0 || i >= cs.len() {
        None
    } else if escaped {
        closing_quote(cs, i + 1, false)
    } else if cs[i] == '\\' {
        closing_quote(cs, i + 1, true)
    } else if cs[i] == '"' {
        Some(i)
    } else {
        closing_quote(cs, i + 1, false)
    }
}

pub open spec fn word_at(cs: Seq<char>, i: int, word: Seq<char>) -> bool {
    0 <= i && i + word.len() <= cs.len() && cs.subrange(i, i + word.len()) == word
}

pub open spec fn null_word() -> Seq<char> {
    seq!['n', 'u', 'l', 'l']
}

pub open spec fn true_word() -> Seq<char> {
    seq!['t', 'r', 'u', 'e']
}

pub open spec fn false_word() -> Seq<char> {
    seq!['f', 'a', 'l', 's', 'e']
}

pub open spec fn keyword(cs: Seq<char>, i: int, word: Seq<char>, t: Lexeme) -> Result<
    (Lexeme, int),
    TokenizeError,
> {
    if word_at(cs, i, word) {
        Ok((t, i + word.len()))
    } else {
        Err(TokenizeError::UnfinishedLiteralValue)
    }
}

/// The token that starts at `i` (not whitespace), with the position just past it.
pub open spec fn token_at(cs: Seq<char>, i: int) -> Result<(Lexeme, int), TokenizeError> {
    let c = cs[i];
    if c == '[' {
        Ok((Lexeme::LeftBracket, i + 1))
    } else if c == ']' {
        Ok((Lexeme::RightBracket, i + 1))
    } else if c == '{' {
        Ok((Lexeme::LeftBrace, i + 1))
    } else if c == '}' {
        Ok((Lexeme::RightBrace, i + 1))
    } else if c == ',' {
        Ok((Lexeme::Comma, i + 1))
    } else if c == ':' {
        Ok((Lexeme::Colon, i + 1))
    } else if c == 'n' {
        keyword(cs, i, null_word(), Lexeme::Null)
    } else if c == 't' {
        keyword(cs, i, true_word(), Lexeme::True)
    } else if c == 'f' {
        keyword(cs, i, false_word(), Lexeme::False)
    } else if c == '-' || is_digit(c) {
        match numeral_end(cs, i) {
            Some(e) => Ok((Lexeme::Number(cs.subrange(i, e)), e)),
            None => Err(TokenizeError::InvalidNumber),
        }
    } else if c == '"' {
        match closing_quote(cs, i + 1, false) {
            Some(e) => Ok((Lexeme::Str(cs.subrange(i + 1, e)), e + 1)),
            None => Err(TokenizeError::UnterminatedString),
        }
    } else {
        Err(TokenizeError::UnexpectedCharacter(c))
    }
}

/// `ts` in front of the tokens of a successful scan; an error unchanged.
pub open spec fn prepend(ts: Seq<Lexeme>, r: Result<Seq<Lexeme>, TokenizeError>) -> Result<
    Seq<Lexeme>,
    TokenizeError,
> {
    match r {
        Ok(rest) => Ok(ts + rest),
        Err(e) => Err(e),
    }
}

/// The tokens of `cs` from position `i` on.
pub open spec fn lex_from(cs: Seq<char>, i: int) -> Result<Seq<Lexeme>, TokenizeError>
    decreases cs.len() - i,
    via lex_from_decreases
{
    if i < 0 || i >= cs.len() {
        Ok(Seq::empty())
    } else if is_whitespace(cs[i]) {
        lex_from(cs, i + 1)
    } else {
        match token_at(cs, i) {
            Ok((t, j)) => prepend(seq![t], lex_from(cs, j)),
            Err(e) => Err(e),
        }
    }
}

/// The tokens of the text `cs`.
pub open spec fn lex(cs: Seq<char>) -> Result<Seq<Lexeme>, TokenizeError> {
    lex_from(cs, 0)
}

pub(crate) proof fn lemma_digits_end(cs: Seq<char>, i: int)
    requires
        0 <= i <= cs.len(),
    ensures
        i <= digits_end(cs, i) <= cs.len(),
    decreases cs.len() - i,
{
    if i < cs.len() && is_digit(cs[i]) {
        lemma_digits_end(cs, i + 1);
    }
}

proof fn lemma_closing_quote(cs: Seq<char>, i: int, escaped: bool)
    ensures
        closing_quote(cs, i, escaped) matches Some(e) ==> i <= e < cs.len(),
    decreases cs.len() - i,
{
    if 0 <= i < cs.len() {
        lemma_closing_quote(cs, i + 1, false);
        lemma_closing_quote(cs, i + 1, true);
    }
}

proof fn lemma_numeral_end(cs: Seq<char>, i: int)
    requires
        0 <= i < cs.len(),
    ensures
        numeral_end(cs, i) matches Some(e) ==> i < e <= cs.len(),
{
    let a = if cs[i] == '-' {
        i + 1
    } else {
        i
    };
    if a + 1 <= cs.len() {
        lemma_digits_end(cs, a + 1);
    }
    if let Some(b) = integer_part_end(cs, a) {
        if b + 1 <= cs.len() {
            lemma_digits_end(cs, b + 1);
        }
        if let Some(c) = fraction_end(cs, b) {
            if c + 2 <= cs.len() {
                lemma_digits_end(cs, c + 2);
            }
            if c + 1 <= cs.len() {
                lemma_digits_end(cs, c + 1);
            }
        }
    }
}

/// A token read at `i` ends past `i` and within the text.
pub proof fn lemma_token_at(cs: Seq<char>, i: int)
    requires
        0 <= i < cs.len(),
    ensures
        token_at(cs, i) matches Ok((_, j)) ==> i < j <= cs.len(),
{
    lemma_numeral_end(cs, i);
    lemma_closing_quote(cs, i + 1, false);
}

#[via_fn]
proof fn lex_from_decreases(cs: Seq<char>, i: int) {
    if 0 <= i < cs.len() {
        lemma_token_at(cs, i);
    }
}

fn scan_digits(cs: &Vec<char>, i: usize) -> (e: usize)
    requires
        i <= cs.len(),
    ensures
        e == digits_end(cs@, i as int),
{
    let mut k: usize = i;
    while k < cs.len() && '0' <= cs[k] && cs[k] <= '9'
        invariant
            i <= k <= cs.len(),
            digits_end(cs@, i as int) == digits_end(cs@, k as int),
        decreases cs.len() - k,
    {
        k = k + 1;
    }
    k
}

fn scan_number(cs: &Vec<char>, i: usize) -> (r: Option<usize>)
    requires
        i < cs.len(),
    ensures
        match r {
            Some(e) => numeral_end(cs@, i as int) == Some(e as int),
            None => numeral_end(cs@, i as int) is None,
        },
{
    proof {
        lemma_digits_end(cs@, i as int);
        if i + 1 <= cs.len() {
            lemma_digits_end(cs@, i + 1);
        }
    }
    let n = cs.len();
    let a: usize = if cs[i] == '-' {
        i + 1
    } else {
        i
    };
    let b: usize = if a < n && cs[a] == '0' {
        if a + 1 < n && '0' <= cs[a + 1] && cs[a + 1] <= '9' {
            return None;
        }
        a + 1
    } else if a < n && '0' <= cs[a] && cs[a] <= '9' {
        scan_digits(cs, a + 1)
    } else {
        return None;
    };
    proof {
        if a + 1 <= n {
            lemma_digits_end(cs@, a + 1);
        }
    }
    let c: usize = if b < n && cs[b] == '.' {
        let e = scan_digits(cs, b + 1);
        if e == b + 1 {
            return None;
        }
        e
    } else {
        b
    };
    proof {
        if b + 1 <= n {
            lemma_digits_end(cs@, b + 1);
        }
    }
    if c < n && (cs[c] == 'e' || cs[c] == 'E') {
        let s: usize = if c + 1 < n && (cs[c + 1] == '+' || cs[c + 1] == '-') {
            c + 2
        } else {
            c + 1
        };
        let e = scan_digits(cs, s);
        if e == s {
            None
        } else {
            Some(e)
        }
    } else {
        Some(c)
    }
}

/// The position of the quote that closes the string literal whose body starts at `i`.
fn scan_string(cs: &Vec<char>, i: usize) -> (r: Option<usize>)
    requires
        i <= cs.len(),
    ensures
        match r {
            Some(e) => closing_quote(cs@, i as int, false) == Some(e as int),
            None => closing_quote(cs@, i as int, false) is None,
        },
{
    let mut k: usize = i;
    let mut escaped = false;
    while k < cs.len()
        invariant
            i <= k <= cs.len(),
            closing_quote(cs@, i as int, false) == closing_quote(cs@, k as int, escaped),
        decreases cs.len() - k,
    {
        if escaped {
            escaped = false;
        } else if cs[k] == '\\' {
            escaped = true;
        } else if cs[k] == '"' {
            return Some(k);
        }
        k = k + 1;
    }
    None
}

/// The characters of `cs` from `a` up to `b`, as a string.
fn text_between(cs: &Vec<char>, a: usize, b: usize) -> (r: String)
    requires
        a <= b <= cs.len(),
    ensures
        r@ == cs@.subrange(a as int, b as int),
{
    string_of(&cs.as_slice()[a..b])
}

/// Whether `word` is spelled out in `cs` from `i` on.
fn word_matches(cs: &Vec<char>, i: usize, word: &Vec<char>) -> (r: bool)
    requires
        i <= cs.len(),
    ensures
        r == word_at(cs@, i as int, word@),
{
    if word.len() > cs.len() - i {
        return false;
    }
    let mut k: usize = 0;
    while k < word.len()
        invariant
            k <= word.len(),
            i + word.len() <= cs.len(),
            forall|j: int| 0 <= j < k ==> cs@[i + j] == word@[j],
        decreases word.len() - k,
    {
        if cs[i + k] != word[k] {
            proof {
                assert(cs@.subrange(i as int, i + word.len())[k as int] != word@[k as int]);
            }
            return false;
        }
        k = k + 1;
    }
    proof {
        assert(cs@.subrange(i as int, i + word.len()) =~= word@);
    }
    true
}

fn tokenize_null(chars: &Vec<char>, index: &mut usize) -> (r: Result<Token, TokenizeError>)
    requires
        *old(index) < chars.len(),
    ensures
        match r {
            Ok(t) => keyword(chars@, *old(index) as int, null_word(), Lexeme::Null) == Step::Ok(
                (t@, *final(index) as int),
            ),
            Err(e) => keyword(chars@, *old(index) as int, null_word(), Lexeme::Null) == Step::Err(e),
        },
{
    let word = vec!['n', 'u', 'l', 'l'];
    assert(word@ == null_word());
    if word_matches(chars, *index, &word) {
        *index = *index + 4;
        Ok(Token::Null)
    } else {
        Err(TokenizeError::UnfinishedLiteralValue)
    }
}

fn tokenize_true(chars: &Vec<char>, index: &mut usize) -> (r: Result<Token, TokenizeError>)
    requires
        *old(index) < chars.len(),
    ensures
        match r {
            Ok(t) => keyword(chars@, *old(index) as int, true_word(), Lexeme::True) == Step::Ok(
                (t@, *final(index) as int),
            ),
            Err(e) => keyword(chars@, *old(index) as int, true_word(), Lexeme::True) == Step::Err(e),
        },
{
    let word = vec!['t', 'r', 'u', 'e'];
    assert(word@ == true_word());
    if word_matches(chars, *index, &word) {
        *index = *index + 4;
        Ok(Token::True)
    } else {
        Err(TokenizeError::UnfinishedLiteralValue)
    }
}

fn tokenize_false(chars: &Vec<char>, index: &mut usize) -> (r: Result<Token, TokenizeError>)
    requires
        *old(index) < chars.len(),
    ensures
        match r {
            Ok(t) => keyword(chars@, *old(index) as int, false_word(), Lexeme::False) == Step::Ok(
                (t@, *final(index) as int),
            ),
            Err(e) => keyword(chars@, *old(index) as int, false_word(), Lexeme::False) == Step::Err(e),
        },
{
    let word = vec!['f', 'a', 'l', 's', 'e'];
    assert(word@ == false_word());
    if word_matches(chars, *index, &word) {
        *index = *index + 5;
        Ok(Token::False)
    } else {
        Err(TokenizeError::UnfinishedLiteralValue)
    }
}

/// Reads the token that starts at `*index` and moves `*index` just past it.
fn make_token(chars: &Vec<char>, index: &mut usize) -> (r: Result<Token, TokenizeError>)
    requires
        *old(index) < chars.len(),
    ensures
        match r {
            Ok(t) => token_at(chars@, *old(index) as int) == Step::Ok((t@, *final(index) as int)),
            Err(e) => token_at(chars@, *old(index) as int) == Step::Err(e),
        },
{
    let i = *index;
    let ch = chars[i];
    if ch == '[' {
        *index = i + 1;
        Ok(Token::LeftBracket)
    } else if ch == ']' {
        *index = i + 1;
        Ok(Token::RightBracket)
    } else if ch == '{' {
        *index = i + 1;
        Ok(Token::LeftBrace)
    } else if ch == '}' {
        *index = i + 1;
        Ok(Token::RightBrace)
    } else if ch == ',' {
        *index = i + 1;
        Ok(Token::Comma)
    } else if ch == ':' {
        *index = i + 1;
        Ok(Token::Colon)
    } else if ch == 'n' {
        tokenize_null(chars, index)
    } else if ch == 't' {
        tokenize_true(chars, index)
    } else if ch == 'f' {
        tokenize_false(chars, index)
    } else if ch == '-' || ('0' <= ch && ch <= '9') {
        proof {
            lemma_numeral_end(chars@, i as int);
        }
        match scan_number(chars, i) {
            Some(e) => {
                *index = e;
                Ok(Token::Number(text_between(chars, i, e)))
            },
            None => Err(TokenizeError::InvalidNumber),
        }
    } else if ch == '"' {
        proof {
            lemma_closing_quote(chars@, i + 1, false);
        }
        match scan_string(chars, i + 1) {
            Some(e) => {
                *index = e + 1;
                Ok(Token::String(text_between(chars, i + 1, e)))
            },
            None => Err(TokenizeError::UnterminatedString),
        }
    } else {
        Err(TokenizeError::UnexpectedCharacter(ch))
    }
}

/// Splits JSON text into tokens, skipping whitespace between them.
pub fn tokenize(input: String) -> (r: Result<Vec<Token>, TokenizeError>)
    ensures
        match r {
            Ok(ts) => lex(input@) == Result::<Seq<Lexeme>, TokenizeError>::Ok(lexemes(ts@)),
            Err(e) => lex(input@) == Result::<Seq<Lexeme>, TokenizeError>::Err(e),
        },
{
    let chars = chars_of(input.as_str());
    let mut index: usize = 0;
    let mut tokens: Vec<Token> = Vec::new();
    while index < chars.len()
        invariant
            index <= chars.len(),
            chars@ == input@,
            lex(chars@) == prepend(lexemes(tokens@), lex_from(chars@, index as int)),
        decreases chars.len() - index,
    {
        let ch = chars[index];
        if ch == ' ' || ch == '\t' || ch == '\n' || ch == '\r' {
            index = index + 1;
        } else {
            let ghost start = index as int;
            proof {
                lemma_token_at(chars@, start);
            }
            let token = match make_token(&chars, &mut index) {
                Ok(t) => t,
                Err(e) => {
                    return Err(e);
                },
            };
            proof {
                let ts = lexemes(tokens@);
                let t = seq![token@];
                assert(lex_from(chars@, start) == prepend(t, lex_from(chars@, index as int)));
                match lex_from(chars@, index as int) {
                    Ok(rest) => {
                        assert(ts + (t + rest) =~= ts.push(token@) + rest);
                    },
                    Err(_) => {},
                }
            }
            let ghost before = tokens@;
            let ghost tv = token@;
            tokens.push(token);
            proof {
                assert(lexemes(tokens@) =~= lexemes(before).push(tv));
            }
        }
    }
    proof {
        assert(lexemes(tokens@) + Seq::empty() =~= lexemes(tokens@));
    }
    Ok(tokens)
}

} // verus!
