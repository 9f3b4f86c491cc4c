//! The tokenizer: from the characters of a document to its tokens.
//!
//! The grammar is stated once, as spec functions over `Seq<char>`
//! ([`token_at`], [`tokens_from`], [`tokens_of`]); the executable scanner is
//! proved to compute exactly what they say.

use vstd::prelude::*;
use crate::number::{is_decimal_literal, Number};
use crate::text::{chars_of, digit, is_digit, is_whitespace, string_of, whitespace};

verus! {

/// Why a text could not be split into tokens.
#[derive(Debug, PartialEq, Eq, Clone)]
pub enum TokenizeError {
    /// A word that starts like `null`, `true` or `false` and is not one of them.
    UnfinishedLiteralValue,
    /// A run of number characters that spells no number; it carries the run.
    ParseNumberError(String),
    /// A string whose closing quote is missing.
    UnclosedQuotes,
    /// The text ended where a token had to begin.
    UnexpectedEof,
    /// A character that begins no token.
    CharNotRecognized(char),
}

/// A lexical unit of a document.
#[derive(Debug, PartialEq, Eq)]
pub enum Token {
    /// `{`
    CLeftBracket,
    /// `}`
    CRightBracket,
    /// `[`
    SLeftBracket,
    /// `]`
    SRightBracket,
    /// `,`
    Comma,
    /// `:`
    Colon,
    /// `null`
    Null,
    /// `true`
    True,
    /// `false`
    False,
    /// The characters between two quotes, escapes not yet decoded.
    String(String),
    /// A number literal.
    Number(Number),
}

/// The mathematical value of a [`Token`].
pub enum TokenView {
    CLeftBracket,
    CRightBracket,
    SLeftBracket,
    SRightBracket,
    Comma,
    Colon,
    Null,
    True,
    False,
    String(Seq<char>),
    Number(Seq<char>),
}

/// The mathematical value of a [`TokenizeError`].
pub enum TokenizeErrorView {
    UnfinishedLiteralValue,
    ParseNumberError(Seq<char>),
    UnclosedQuotes,
    UnexpectedEof,
    CharNotRecognized(char),
}

impl View for Token {
    type V = TokenView;

    open spec fn view(&self) -> TokenView {
        match self {
            Token::CLeftBracket => TokenView::CLeftBracket,
            Token::CRightBracket => TokenView::CRightBracket,
            Token::SLeftBracket => TokenView::SLeftBracket,
            Token::SRightBracket => TokenView::SRightBracket,
            Token::Comma => TokenView::Comma,
            Token::Colon => TokenView::Colon,
            Token::Null => TokenView::Null,
            Token::True => TokenView::True,
            Token::False => TokenView::False,
            Token::String(s) => TokenView::String(s@),
            Token::Number(n) => TokenView::Number(n@),
        }
    }
}

impl View for TokenizeError {
    type V = TokenizeErrorView;

    open spec fn view(&self) -> TokenizeErrorView {
        match self {
            TokenizeError::UnfinishedLiteralValue => TokenizeErrorView::UnfinishedLiteralValue,
            TokenizeError::ParseNumberError(s) => TokenizeErrorView::ParseNumberError(s@),
            TokenizeError::UnclosedQuotes => TokenizeErrorView::UnclosedQuotes,
            TokenizeError::UnexpectedEof => TokenizeErrorView::UnexpectedEof,
            TokenizeError::CharNotRecognized(c) => TokenizeErrorView::CharNotRecognized(*c),
        }
    }
}

/// The values of a run of tokens.
pub open spec fn token_views(tokens: Seq<Token>) -> Seq<TokenView> {
    tokens.map_values(|t: Token| t@)
}

/// What scanning one token gives: the token and the position after it, or the failure.
pub type Scan = Result<(TokenView, int), TokenizeErrorView>;

/// What scanning a text gives: its tokens in order, or the first failure.
pub type Tokens = Result<Seq<TokenView>, TokenizeErrorView>;

/// The spelling of a keyword token; empty for every other token.
pub open spec fn keyword_text(token: TokenView) -> Seq<char> {
    match token {
        TokenView::Null => seq!['n', 'u', 'l', 'l'],
        TokenView::True => seq!['t', 'r', 'u', 'e'],
        TokenView::False => seq!['f', 'a', 'l', 's', 'e'],
        _ => Seq::empty(),
    }
}

/// The first position at or after `i` that holds no blank; the length of `s` if there is none.
pub open spec fn skip_whitespace(s: Seq<char>, i: int) -> int
    decreases s.len() - i,
{
    if 0 <= i < s.len() && is_whitespace(s[i]) {
        skip_whitespace(s, i + 1)
    } else {
        i
    }
}

/// Whether `word` stands in `s` at position `i`.
pub open spec fn has_word_at(s: Seq<char>, i: int, word: Seq<char>) -> bool {
    0 <= i && i + word.len() <= s.len() && s.subrange(i, i + word.len()) == word
}

/// Scanning a keyword that has to begin at `i`.
pub open spec fn literal_at(s: Seq<char>, i: int, token: TokenView) -> Scan {
    if has_word_at(s, i, keyword_text(token)) {
        Ok((token, i + keyword_text(token).len()))
    } else {
        Err(TokenizeErrorView::UnfinishedLiteralValue)
    }
}

/// The position of the quote that closes a string, scanning from `i` inside
/// it; `escaping` says whether the character before `i` was a backslash that
/// escapes. A backslash escapes the character after it, whatever that is. The
/// result is at least the length of `s` if no quote closes the string.
pub open spec fn string_end(s: Seq<char>, i: int, escaping: bool) -> int
    decreases s.len() - i,
{
    if !(0 <= i < s.len()) {
        i
    } else if s[i] == '"' && !escaping {
        i
    } else if s[i] == '\\' {
        string_end(s, i + 1, !escaping)
    } else {
        string_end(s, i + 1, false)
    }
}

/// Scanning a string whose opening quote stands at `i`.
pub open spec fn string_at(s: Seq<char>, i: int) -> Scan {
    let end = string_end(s, i + 1, false);
    if 0 <= i && end < s.len() {
        Ok((TokenView::String(s.subrange(i + 1, end)), end + 1))
    } else {
        Err(TokenizeErrorView::UnclosedQuotes)
    }
}

/// The position where a run of digits ends that may hold one point; `has_decimal` says
/// whether the point has been passed already.
pub open spec fn number_end(s: Seq<char>, i: int, has_decimal: bool) -> int
    decreases s.len() - i,
{
    if !(0 <= i < s.len()) {
        i
    } else if is_digit(s[i]) {
        number_end(s, i + 1, has_decimal)
    } else if s[i] == '.' && !has_decimal {
        number_end(s, i + 1, true)
    } else {
        i
    }
}

/// Scanning a number that begins at `i`, where a digit or a minus sign stands.
pub open spec fn number_at(s: Seq<char>, i: int) -> Scan {
    let digits = if s[i] == '-' { i + 1 } else { i };
    let end = number_end(s, digits, false);
    let literal = s.subrange(i, end);
    if is_decimal_literal(literal) {
        Ok((TokenView::Number(literal), end))
    } else {
        Err(TokenizeErrorView::ParseNumberError(literal))
    }
}

/// Scanning the token that begins at `i`, where no blank stands.
pub open spec fn token_start(s: Seq<char>, i: int) -> Scan {
    let c = s[i];
    if c == '{' {
        Ok((TokenView::CLeftBracket, i + 1))
    } else if c == '}' {
        Ok((TokenView::CRightBracket, i + 1))
    } else if c == '[' {
        Ok((TokenView::SLeftBracket, i + 1))
    } else if c == ']' {
        Ok((TokenView::SRightBracket, i + 1))
    } else if c == ',' {
        Ok((TokenView::Comma, i + 1))
    } else if c == ':' {
        Ok((TokenView::Colon, i + 1))
    } else if c == 'n' {
        literal_at(s, i, TokenView::Null)
    } else if c == 't' {
        literal_at(s, i, TokenView::True)
    } else if c == 'f' {
        literal_at(s, i, TokenView::False)
    } else if c == '"' {
        string_at(s, i)
    } else if is_digit(c) || c == '-' {
        number_at(s, i)
    } else {
        Err(TokenizeErrorView::CharNotRecognized(c))
    }
}

/// Scanning from `i`: blanks are passed over, then one token is read. Blanks
/// with nothing after them are a failure.
pub open spec fn token_at(s: Seq<char>, i: int) -> Scan {
    let start = skip_whitespace(s, i);
    if 0 <= start < s.len() {
        token_start(s, start)
    } else {
        Err(TokenizeErrorView::UnexpectedEof)
    }
}

/// `rest` with `done` put in front of its tokens; a failure stays what it is.
pub open spec fn prepend_tokens(done: Seq<TokenView>, rest: Tokens) -> Tokens {
    match rest {
        Ok(tokens) => Ok(done + tokens),
        Err(e) => Err(e),
    }
}

/// The tokens of `s` from position `i` on, or the first failure.
pub open spec fn tokens_from(s: Seq<char>, i: int) -> Tokens
    decreases s.len() - i,
    via tokens_from_decreases
{
    if !(0 <= i < s.len()) {
        Ok(Seq::empty())
    } else {
        match token_at(s, i) {
            Err(e) => Err(e),
            Ok((token, next)) => match tokens_from(s, next) {
                Err(e) => Err(e),
                Ok(rest) => Ok(seq![token] + rest),
            },
        }
    }
}

#[via_fn]
proof fn tokens_from_decreases(s: Seq<char>, i: int) {
    if 0 <= i < s.len() {
        lemma_token_at_advances(s, i);
    }
}

/// The tokens of a whole text, or the first failure. The empty text has no tokens.
pub open spec fn tokens_of(s: Seq<char>) -> Tokens {
    tokens_from(s, 0)
}

/// Skipping blanks never goes back nor past the end, and stops at a
/// character that is no blank.
pub proof fn lemma_skip_whitespace(s: Seq<char>, i: int)
    requires
        0 <= i <= s.len(),
    ensures
        i <= skip_whitespace(s, i) <= s.len(),
        skip_whitespace(s, i) < s.len() ==> !is_whitespace(s[skip_whitespace(s, i)]),
        forall|k: int| i <= k < skip_whitespace(s, i) ==> is_whitespace(#[trigger] s[k]),
    decreases s.len() - i,
{
    if i < s.len() && is_whitespace(s[i]) {
        lemma_skip_whitespace(s, i + 1);
    }
}

/// The scan of a string stops inside the text or at its end, never before `i`.
pub proof fn lemma_string_end(s: Seq<char>, i: int, escaping: bool)
    requires
        0 <= i <= s.len(),
    ensures
        i <= string_end(s, i, escaping) <= s.len(),
    decreases s.len() - i,
{
    if i < s.len() && !(s[i] == '"' && !escaping) {
        lemma_string_end(s, i + 1, if s[i] == '\\' { !escaping } else { false });
    }
}

/// The scan of a number stops inside the text or at its end, never before `i`,
/// and passes over a digit.
pub proof fn lemma_number_end(s: Seq<char>, i: int, has_decimal: bool)
    requires
        0 <= i <= s.len(),
    ensures
        i <= number_end(s, i, has_decimal) <= s.len(),
        i < s.len() && is_digit(s[i]) ==> i < number_end(s, i, has_decimal),
    decreases s.len() - i,
{
    if i < s.len() {
        if is_digit(s[i]) {
            lemma_number_end(s, i + 1, has_decimal);
        } else if s[i] == '.' && !has_decimal {
            lemma_number_end(s, i + 1, true);
        }
    }
}

/// A token that was read takes at least one character and ends inside the text.
pub proof fn lemma_token_at_advances(s: Seq<char>, i: int)
    requires
        0 <= i < s.len(),
    ensures
        token_at(s, i) matches Ok((_, next)) ==> i < next <= s.len(),
{
    lemma_skip_whitespace(s, i);
    let start = skip_whitespace(s, i);
    if start < s.len() {
        lemma_string_end(s, start + 1, false);
        let digits = if s[start] == '-' { start + 1 } else { start };
        lemma_number_end(s, digits, false);
        let end = number_end(s, digits, false);
        if s[start] == '-' && is_decimal_literal(s.subrange(start, end)) {
            assert(end > start);
        }
    }
}

impl Token {
    /// A string token that holds the characters of `input`.
    pub fn string(input: &str) -> (r: Token)
        ensures
            r@ == TokenView::String(input@),
    {
        Token::String(String::from_str(input))
    }

    /// The spelling of a keyword token; `None` for every other token.
    pub fn keyword(&self) -> (r: Option<&'static str>)
        ensures
            match r {
                Some(word) => (self is Null || self is True || self is False) && word@
                    == keyword_text(self@),
                None => !(self is Null || self is True || self is False),
            },
    {
        match self {
            Token::Null => {
                proof {
                    reveal_strlit("null");
                }
                assert("null"@ =~= keyword_text(TokenView::Null));
                Some("null")
            },
            Token::True => {
                proof {
                    reveal_strlit("true");
                }
                assert("true"@ =~= keyword_text(TokenView::True));
                Some("true")
            },
            Token::False => {
                proof {
                    reveal_strlit("false");
                }
                assert("false"@ =~= keyword_text(TokenView::False));
                Some("false")
            },
            _ => None,
        }
    }
}

/// Reads the keyword `token`, which has to begin at `*index`, and leaves
/// `*index` after it. On failure `*index` is unchanged.
pub fn tokenize_literal(chars: &Vec<char>, index: &mut usize, token: Token) -> (r: Result<
    Token,
    TokenizeError,
>)
    requires
        token is Null || token is True || token is False,
    ensures
        match r {
            Ok(t) => {
                &&& t == token
                &&& literal_at(chars@, *old(index) as int, token@) == Scan::Ok(
                    (token@, *final(index) as int),
                )
            },
            Err(e) => {
                &&& literal_at(chars@, *old(index) as int, token@) == Scan::Err(e@)
                &&& *final(index) == *old(index)
            },
        },
{
    let start: usize = *index;
    let word = match token.keyword() {
        Some(word) => word,
        None => unreached(),
    };
    let n: usize = word.unicode_len();
    if start > chars.len() || chars.len() - start < n {
        return Err(TokenizeError::UnfinishedLiteralValue);
    }
    let mut k: usize = 0;
    while k < n
        invariant
            k <= n,
            n == word@.len(),
            word@ == keyword_text(token@),
            start == *index == *old(index),
            start + n <= chars.len(),
            forall|j: int| 0 <= j < k ==> chars@[start + j] == word@[j],
        decreases n - k,
    {
        if chars[start + k] != word.get_char(k) {
            assert(chars@.subrange(start as int, start + n)[k as int] == chars@[start + k]);
            return Err(TokenizeError::UnfinishedLiteralValue);
        }
        k += 1;
    }
    assert(chars@.subrange(start as int, start + n) =~= word@);
    *index = start + n;
    Ok(token)
}

/// Reads the string whose opening quote stands at `*index`, and leaves
/// `*index` after its closing quote. On failure `*index` is unchanged.
pub fn tokenize_string(chars: &Vec<char>, index: &mut usize) -> (r: Result<Token, TokenizeError>)
    ensures
        match r {
            Ok(t) => string_at(chars@, *old(index) as int) == Scan::Ok((t@, *final(index) as int)),
            Err(e) => {
                &&& string_at(chars@, *old(index) as int) == Scan::Err(e@)
                &&& *final(index) == *old(index)
            },
        },
{
    if *index >= chars.len() {
        return Err(TokenizeError::UnclosedQuotes);
    }
    let start: usize = *index + 1;
    let mut i: usize = start;
    let mut is_escaping = false;
    while i < chars.len() && !(chars[i] == '"' && !is_escaping)
        invariant
            start <= i <= chars.len(),
            string_end(chars@, start as int, false) == string_end(chars@, i as int, is_escaping),
        decreases chars.len() - i,
    {
        is_escaping = if chars[i] == '\\' { !is_escaping } else { false };
        i += 1;
    }
    if i >= chars.len() {
        return Err(TokenizeError::UnclosedQuotes);
    }
    let content = string_of(chars, start, i);
    *index = i + 1;
    Ok(Token::String(content))
}

/// Reads the number that begins at `*index`, where a digit or a minus sign
/// stands, and leaves `*index` after it. On failure `*index` is unchanged.
pub fn tokenize_float(chars: &Vec<char>, index: &mut usize) -> (r: Result<Token, TokenizeError>)
    requires
        *old(index) < chars.len(),
    ensures
        match r {
            Ok(t) => number_at(chars@, *old(index) as int) == Scan::Ok((t@, *final(index) as int)),
            Err(e) => {
                &&& number_at(chars@, *old(index) as int) == Scan::Err(e@)
                &&& *final(index) == *old(index)
            },
        },
{
    let start: usize = *index;
    let digits: usize = if chars[start] == '-' { start + 1 } else { start };
    let mut i: usize = digits;
    let mut has_decimal = false;
    while i < chars.len() && (digit(chars[i]) || (chars[i] == '.' && !has_decimal))
        invariant
            digits <= i <= chars.len(),
            number_end(chars@, digits as int, false) == number_end(chars@, i as int, has_decimal),
        decreases chars.len() - i,
    {
        if !digit(chars[i]) {
            has_decimal = true;
        }
        i += 1;
    }
    match Number::from_string(string_of(chars, start, i)) {
        Ok(number) => {
            *index = i;
            Ok(Token::Number(number))
        },
        Err(literal) => Err(TokenizeError::ParseNumberError(literal)),
    }
}

/// Passes over blanks from `*index` on, reads one token, and leaves `*index`
/// after it. On failure `*index` is unchanged.
pub fn make_token(chars: &Vec<char>, index: &mut usize) -> (r: Result<Token, TokenizeError>)
    ensures
        match r {
            Ok(t) => {
                &&& token_at(chars@, *old(index) as int) == Scan::Ok((t@, *final(index) as int))
                &&& *old(index) < *final(index) <= chars.len()
            },
            Err(e) => {
                &&& token_at(chars@, *old(index) as int) == Scan::Err(e@)
                &&& *final(index) == *old(index)
            },
        },
{
    if *index >= chars.len() {
        return Err(TokenizeError::UnexpectedEof);
    }
    let mut start: usize = *index;
    while start < chars.len() && whitespace(chars[start])
        invariant
            *index <= start <= chars.len(),
            skip_whitespace(chars@, *index as int) == skip_whitespace(chars@, start as int),
        decreases chars.len() - start,
    {
        start += 1;
    }
    if start >= chars.len() {
        return Err(TokenizeError::UnexpectedEof);
    }
    proof {
        lemma_token_at_advances(chars@, *index as int);
    }
    let ch = chars[start];
    let mut cursor: usize = start;
    let token = if ch == '{' {
        cursor = start + 1;
        Token::CLeftBracket
    } else if ch == '}' {
        cursor = start + 1;
        Token::CRightBracket
    } else if ch == '[' {
        cursor = start + 1;
        Token::SLeftBracket
    } else if ch == ']' {
        cursor = start + 1;
        Token::SRightBracket
    } else if ch == ',' {
        cursor = start + 1;
        Token::Comma
    } else if ch == ':' {
        cursor = start + 1;
        Token::Colon
    } else if ch == 'n' {
        tokenize_literal(chars, &mut cursor, Token::Null)?
    } else if ch == 't' {
        tokenize_literal(chars, &mut cursor, Token::True)?
    } else if ch == 'f' {
        tokenize_literal(chars, &mut cursor, Token::False)?
    } else if ch == '"' {
        tokenize_string(chars, &mut cursor)?
    } else if digit(ch) || ch == '-' {
        tokenize_float(chars, &mut cursor)?
    } else {
        return Err(TokenizeError::CharNotRecognized(ch));
    };
    *index = cursor;
    Ok(token)
}

/// Splits `input` into its tokens.
///
/// The result is exactly what [`tokens_of`] says of the characters of
/// `input`: all the tokens in order, or the first failure and nothing else.
pub fn tokenize(input: String) -> (r: Result<Vec<Token>, TokenizeError>)
    ensures
        match r {
            Ok(tokens) => tokens_of(input@) == Tokens::Ok(
                token_views(tokens@),
            ),
            Err(e) => tokens_of(input@) == Tokens::Err(e@),
        },
{
    let chars = chars_of(input.as_str());
    let mut index: usize = 0;
    let mut tokens: Vec<Token> = Vec::new();
    while index < chars.len()
        invariant
            index <= chars.len(),
            chars@ == input@,
            tokens_of(input@) == prepend_tokens(
                token_views(tokens@),
                tokens_from(chars@, index as int),
            ),
        decreases chars.len() - index,
    {
        let ghost before = token_views(tokens@);
        match make_token(&chars, &mut index) {
            Ok(token) => {
                tokens.push(token);
                proof {
                    assert(token_views(tokens@) =~= before.push(token@));
                    match tokens_from(chars@, index as int) {
                        Ok(rest) => {
                            assert(before + (seq![token@] + rest) =~= before.push(token@) + rest);
                        },
                        Err(_) => {},
                    }
                }
            },
            Err(e) => {
                return Err(e);
            },
        }
    }
    assert(token_views(tokens@) + Seq::<TokenView>::empty() =~= token_views(tokens@));
    Ok(tokens)
}

} // verus!
