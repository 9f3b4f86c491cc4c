//! The parser: from tokens to a value.
//!
//! The grammar is stated as spec functions over the tokens' values
//! ([`value_at`], [`elements_at`], [`members_at`], [`decode`]); the
//! executable parser is proved to compute exactly what they say.

use vstd::prelude::*;
use crate::text::{chars_of, hex_digit, hex_value, is_scalar_value};
use crate::tokenize::{token_views, Token, TokenView};
use crate::value::{
    distinct_keys, lemma_find_key, lemma_put_distinct, put, value_views, Members, Object, Value,
    ValueView,
};

verus! {

/// Why a run of tokens could not be read as a value.
#[derive(Debug, PartialEq, Eq, Clone, Copy)]
pub enum TokenParseError {
    /// A backslash with nothing after it, or a `\u` escape with fewer than
    /// four characters after it.
    UnfinishedEscape,
    /// A `\u` escape with a character that is no hexadecimal digit.
    InvalidHexDigit,
    /// A `\u` escape whose code names no character.
    InvalidCodePointValue,
    /// Neither a comma nor the closing bracket after a member or an element.
    ExpectedComma,
    /// No colon after the key of a member.
    ExpectedColon,
    /// No string where the key of a member has to stand.
    ExpectedProperty,
    /// No token, or one that begins no value, where a value has to stand.
    UnexpectedToken,
}

impl TokenParseError {
    /// The name of the failure.
    pub open spec fn name(self) -> Seq<char> {
        match self {
            TokenParseError::UnfinishedEscape => "UnfinishedEscape"@,
            TokenParseError::InvalidHexDigit => "InvalidHexDigit"@,
            TokenParseError::InvalidCodePointValue => "InvalidCodePointValue"@,
            TokenParseError::ExpectedComma => "ExpectedComma"@,
            TokenParseError::ExpectedColon => "ExpectedColon"@,
            TokenParseError::ExpectedProperty => "ExpectedProperty"@,
            TokenParseError::UnexpectedToken => "UnexpectedToken"@,
        }
    }

    /// The name of the failure, as text.
    pub fn as_str(&self) -> (r: &'static str)
        ensures
            r@ == self.name(),
    {
        match self {
            TokenParseError::UnfinishedEscape => "UnfinishedEscape",
            TokenParseError::InvalidHexDigit => "InvalidHexDigit",
            TokenParseError::InvalidCodePointValue => "InvalidCodePointValue",
            TokenParseError::ExpectedComma => "ExpectedComma",
            TokenParseError::ExpectedColon => "ExpectedColon",
            TokenParseError::ExpectedProperty => "ExpectedProperty",
            TokenParseError::UnexpectedToken => "UnexpectedToken",
        }
    }
}

/// What reading one value gives: the value and the position after its last
/// token, or the failure.
pub type Parsed = Result<(ValueView, int), TokenParseError>;

/// What decoding the escapes of a string gives: its characters, or the failure.
pub type Decoded = Result<Seq<char>, TokenParseError>;

/// The character that an escaped `c` stands for. A character without a
/// meaning of its own stands for itself.
pub open spec fn unescape(c: char) -> char {
    if c == 'b' {
        '\u{8}'
    } else if c == 'f' {
        '\u{c}'
    } else if c == 'n' {
        '\n'
    } else if c == 'r' {
        '\r'
    } else if c == 't' {
        '\t'
    } else {
        c
    }
}

/// The number that the `count` hexadecimal digits from `i` on spell, most
/// significant digit first, continuing from `acc`. The first place that is
/// missing or holds no such digit decides the failure.
pub open spec fn hex_number(s: Seq<char>, i: int, count: nat, acc: int) -> Result<
    int,
    TokenParseError,
>
    decreases count,
{
    if count == 0 {
        Ok(acc)
    } else if !(0 <= i < s.len()) {
        Err(TokenParseError::UnfinishedEscape)
    } else {
        match hex_value(s[i]) {
            None => Err(TokenParseError::InvalidHexDigit),
            Some(d) => hex_number(s, i + 1, (count - 1) as nat, acc * 16 + d),
        }
    }
}

/// The character that the four hexadecimal digits from `i` on name.
pub open spec fn code_point(s: Seq<char>, i: int) -> Result<char, TokenParseError> {
    match hex_number(s, i, 4, 0) {
        Err(e) => Err(e),
        Ok(code) => if 0 <= code <= 0xFFFF && is_scalar_value(code as u32) {
            Ok(code as u32 as char)
        } else {
            Err(TokenParseError::InvalidCodePointValue)
        },
    }
}

/// `rest` with `c` put in front; a failure stays what it is.
pub open spec fn prepend_char(c: char, rest: Decoded) -> Decoded {
    match rest {
        Ok(chars) => Ok(seq![c] + chars),
        Err(e) => Err(e),
    }
}

/// The characters that `s` stands for from position `i` on: a backslash
/// gives the next character its escaped meaning, and `\u` takes four
/// hexadecimal digits. A backslash that ends `s` is an escape left
/// unfinished.
pub open spec fn decode_from(s: Seq<char>, i: int) -> Decoded
    decreases s.len() - i,
    via decode_from_decreases
{
    if !(0 <= i < s.len()) {
        Ok(Seq::empty())
    } else if s[i] != '\\' {
        prepend_char(s[i], decode_from(s, i + 1))
    } else if i + 1 >= s.len() {
        Err(TokenParseError::UnfinishedEscape)
    } else if s[i + 1] != 'u' {
        prepend_char(unescape(s[i + 1]), decode_from(s, i + 2))
    } else {
        match code_point(s, i + 2) {
            Err(e) => Err(e),
            Ok(c) => prepend_char(c, decode_from(s, i + 6)),
        }
    }
}

#[via_fn]
proof fn decode_from_decreases(s: Seq<char>, i: int) {
    if 0 <= i && i + 1 < s.len() {
        lemma_hex_number(s, i + 2, 4, 0);
    }
}

/// Hexadecimal digits that spell a number all stand in `s`.
pub proof fn lemma_hex_number(s: Seq<char>, i: int, count: nat, acc: int)
    requires
        0 <= i <= s.len(),
        0 <= acc,
    ensures
        hex_number(s, i, count, acc) matches Ok(n) ==> i + count <= s.len() && 0 <= n,
    decreases count,
{
    if count > 0 && i < s.len() {
        match hex_value(s[i]) {
            None => {},
            Some(d) => {
                lemma_hex_number(s, i + 1, (count - 1) as nat, acc * 16 + d);
            },
        }
    }
}

/// The characters that the raw content `s` of a string token stands for.
pub open spec fn decode(s: Seq<char>) -> Decoded {
    decode_from(s, 0)
}

/// Whether `token` stands at position `i`.
pub open spec fn token_is(tokens: Seq<TokenView>, i: int, token: TokenView) -> bool {
    0 <= i < tokens.len() && tokens[i] == token
}

/// The value that begins at position `i`.
pub open spec fn value_at(tokens: Seq<TokenView>, i: int) -> Parsed
    decreases tokens.len() - i, 0nat,
{
    if !(0 <= i < tokens.len()) {
        Err(TokenParseError::UnexpectedToken)
    } else {
        match tokens[i] {
            TokenView::Null => Ok((ValueView::Null, i + 1)),
            TokenView::True => Ok((ValueView::Boolean(true), i + 1)),
            TokenView::False => Ok((ValueView::Boolean(false), i + 1)),
            TokenView::Number(literal) => Ok((ValueView::Number(literal), i + 1)),
            TokenView::String(raw) => match decode(raw) {
                Ok(chars) => Ok((ValueView::String(chars), i + 1)),
                Err(e) => Err(e),
            },
            TokenView::SLeftBracket => elements_at(tokens, i + 1, Seq::empty()),
            TokenView::CLeftBracket => members_at(tokens, i + 1, Seq::empty()),
            _ => Err(TokenParseError::UnexpectedToken),
        }
    }
}

/// The array whose elements `done` have been read and whose next element, or
/// closing bracket, begins at position `i`.
///
/// A value takes at least one token ([`lemma_value_at`]), so the test
/// `i < next` never fails; it is written out because the definition's
/// termination rests on it.
pub open spec fn elements_at(tokens: Seq<TokenView>, i: int, done: Seq<ValueView>) -> Parsed
    decreases tokens.len() - i, 1nat,
{
    if token_is(tokens, i, TokenView::SRightBracket) {
        Ok((ValueView::Array(done), i + 1))
    } else {
        match value_at(tokens, i) {
            Err(e) => Err(e),
            Ok((value, next)) => if i < next && token_is(tokens, next, TokenView::Comma) {
                elements_at(tokens, next + 1, done.push(value))
            } else if token_is(tokens, next, TokenView::SRightBracket) {
                Ok((ValueView::Array(done.push(value)), next + 1))
            } else {
                Err(TokenParseError::ExpectedComma)
            },
        }
    }
}

/// The object whose members `done` have been read and whose next member, or
/// closing bracket, begins at position `i`. A key is the raw content of its
/// string token. A key that comes again replaces the value it had.
///
/// As in [`elements_at`], the test `i < next` never fails.
pub open spec fn members_at(tokens: Seq<TokenView>, i: int, done: Members) -> Parsed
    decreases tokens.len() - i, 1nat,
{
    if token_is(tokens, i, TokenView::CRightBracket) {
        Ok((ValueView::Object(done), i + 1))
    } else if !(0 <= i < tokens.len() && tokens[i] is String) {
        Err(TokenParseError::ExpectedProperty)
    } else if !token_is(tokens, i + 1, TokenView::Colon) {
        Err(TokenParseError::ExpectedColon)
    } else {
        match value_at(tokens, i + 2) {
            Err(e) => Err(e),
            Ok((value, next)) => {
                let members = put(done, tokens[i]->String_0, value);
                if i < next && token_is(tokens, next, TokenView::Comma) {
                    members_at(tokens, next + 1, members)
                } else if token_is(tokens, next, TokenView::CRightBracket) {
                    Ok((ValueView::Object(members), next + 1))
                } else {
                    Err(TokenParseError::ExpectedComma)
                }
            },
        }
    }
}

/// The array whose opening bracket stands at position `i`.
pub open spec fn array_at(tokens: Seq<TokenView>, i: int) -> Parsed {
    elements_at(tokens, i + 1, Seq::empty())
}

/// The object whose opening bracket stands at position `i`.
pub open spec fn object_at(tokens: Seq<TokenView>, i: int) -> Parsed {
    members_at(tokens, i + 1, Seq::empty())
}

/// A value that was read takes at least one token and ends inside the
/// tokens, and no object in it has a key twice.
pub proof fn lemma_value_at(tokens: Seq<TokenView>, i: int)
    ensures
        value_at(tokens, i) matches Ok((value, next)) ==> i < next <= tokens.len()
            && value.well_formed(),
    decreases tokens.len() - i, 0nat,
{
    if 0 <= i < tokens.len() {
        match tokens[i] {
            TokenView::SLeftBracket => {
                lemma_elements_at(tokens, i + 1, Seq::empty());
            },
            TokenView::CLeftBracket => {
                lemma_members_at(tokens, i + 1, Seq::empty());
            },
            _ => {},
        }
    }
}

/// An array that was read ends inside the tokens, after where its next
/// element was looked for, and holds the elements read before and after in
/// the order of reading; no object in it has a key twice if none of the
/// elements read before had one.
pub proof fn lemma_elements_at(tokens: Seq<TokenView>, i: int, done: Seq<ValueView>)
    requires
        forall|k: int| 0 <= k < done.len() ==> (#[trigger] done[k]).well_formed(),
    ensures
        elements_at(tokens, i, done) matches Ok((value, next)) ==> i < next <= tokens.len()
            && value.well_formed() && value is Array && done.is_prefix_of(value->Array_0),
    decreases tokens.len() - i, 1nat,
{
    if !token_is(tokens, i, TokenView::SRightBracket) {
        lemma_value_at(tokens, i);
        match value_at(tokens, i) {
            Ok((value, next)) => {
                if token_is(tokens, next, TokenView::Comma) {
                    lemma_elements_at(tokens, next + 1, done.push(value));
                }
            },
            Err(_) => {},
        }
    }
}

/// An object that was read ends inside the tokens, after where its next
/// member was looked for, and no object in it has a key twice if that was
/// so of the members read before.
pub proof fn lemma_members_at(tokens: Seq<TokenView>, i: int, done: Members)
    requires
        distinct_keys(done),
        forall|k: int| 0 <= k < done.len() ==> (#[trigger] done[k]).1.well_formed(),
    ensures
        members_at(tokens, i, done) matches Ok((value, next)) ==> i < next <= tokens.len()
            && value.well_formed() && value is Object,
    decreases tokens.len() - i, 1nat,
{
    if !token_is(tokens, i, TokenView::CRightBracket) && 0 <= i < tokens.len()
        && tokens[i] is String && token_is(tokens, i + 1, TokenView::Colon) {
        lemma_value_at(tokens, i + 2);
        match value_at(tokens, i + 2) {
            Ok((value, next)) => {
                let key = tokens[i]->String_0;
                let members = put(done, key, value);
                lemma_put_distinct(done, key, value);
                lemma_find_key(done, key, 0);
                assert forall|k: int| 0 <= k < members.len() implies (
                #[trigger] members[k]).1.well_formed() by {
                    if k < done.len() {
                        assert(done[k].1.well_formed());
                    }
                }
                if token_is(tokens, next, TokenView::Comma) {
                    lemma_members_at(tokens, next + 1, members);
                }
            },
            Err(_) => {},
        }
    }
}

/// `rest` with `done` put in front; a failure stays what it is.
pub open spec fn prepend_chars(done: Seq<char>, rest: Decoded) -> Decoded {
    match rest {
        Ok(chars) => Ok(done + chars),
        Err(e) => Err(e),
    }
}

/// Putting `done` and then `c` in front is putting `done` with `c` at its end in front.
pub proof fn lemma_prepend_push(done: Seq<char>, c: char, rest: Decoded)
    ensures
        prepend_chars(done, prepend_char(c, rest)) == prepend_chars(done.push(c), rest),
{
    match rest {
        Ok(chars) => {
            assert(done + (seq![c] + chars) =~= done.push(c) + chars);
        },
        Err(_) => {},
    }
}

/// The character that an escaped `c` stands for.
pub fn unescaped(c: char) -> (r: char)
    ensures
        r == unescape(c),
{
    if c == 'b' {
        '\u{8}'
    } else if c == 'f' {
        '\u{c}'
    } else if c == 'n' {
        '\n'
    } else if c == 'r' {
        '\r'
    } else if c == 't' {
        '\t'
    } else {
        c
    }
}

/// The character that the four hexadecimal digits from `from` on name.
pub fn escaped_code_point(chars: &Vec<char>, from: usize) -> (r: Result<char, TokenParseError>)
    requires
        from <= chars.len(),
    ensures
        r == code_point(chars@, from as int),
        r is Ok ==> from + 4 <= chars.len(),
{
    let mut code: u32 = 0;
    let mut k: usize = 0;
    while k < 4
        invariant
            k <= 4,
            from + k <= chars.len(),
            k == 0 ==> code == 0,
            k == 1 ==> code < 0x10,
            k == 2 ==> code < 0x100,
            k == 3 ==> code < 0x1000,
            k == 4 ==> code < 0x10000,
            hex_number(chars@, from as int, 4, 0) == hex_number(
                chars@,
                from + k,
                (4 - k) as nat,
                code as int,
            ),
        decreases 4 - k,
    {
        if k >= chars.len() - from {
            return Err(TokenParseError::UnfinishedEscape);
        }
        match hex_digit(chars[from + k]) {
            None => {
                return Err(TokenParseError::InvalidHexDigit);
            },
            Some(d) => {
                code = code * 16 + d;
            },
        }
        k += 1;
    }
    match char::from_u32(code) {
        Some(c) => Ok(c),
        None => Err(TokenParseError::InvalidCodePointValue),
    }
}

/// Decodes the escapes of the raw content of a string token.
///
/// The result is the string value of the characters that [`decode`] gives,
/// or the failure that it gives.
pub fn parse_string(s: &str) -> (r: Result<Value, TokenParseError>)
    ensures
        match r {
            Ok(v) => v is String && decode(s@) == Decoded::Ok(v->String_0@),
            Err(e) => decode(s@) == Decoded::Err(e),
        },
{
    let chars = chars_of(s);
    let mut output = String::new();
    let mut i: usize = 0;
    while i < chars.len()
        invariant
            i <= chars.len(),
            chars@ == s@,
            decode(s@) == prepend_chars(output@, decode_from(chars@, i as int)),
        decreases chars.len() - i,
    {
        let c = chars[i];
        if c != '\\' {
            proof {
                lemma_prepend_push(output@, c, decode_from(chars@, i + 1));
            }
            output.push(c);
            i += 1;
        } else if chars.len() - i < 2 {
            return Err(TokenParseError::UnfinishedEscape);
        } else if chars[i + 1] != 'u' {
            let plain = unescaped(chars[i + 1]);
            proof {
                lemma_prepend_push(output@, plain, decode_from(chars@, i + 2));
            }
            output.push(plain);
            i += 2;
        } else {
            match escaped_code_point(&chars, i + 2) {
                Ok(named) => {
                    proof {
                        lemma_prepend_push(output@, named, decode_from(chars@, i + 6));
                    }
                    output.push(named);
                    i += 6;
                },
                Err(e) => {
                    return Err(e);
                },
            }
        }
    }
    assert(output@ + Seq::<char>::empty() =~= output@);
    Ok(Value::String(output))
}

/// Reads the value that begins at `tokens[*index]` and leaves `*index` after
/// its last token. On failure `*index` is unchanged.
///
/// The result is exactly what [`value_at`] says: the value and where it
/// ends, or the first failure. Where no token stands at `*index`, that is
/// `UnexpectedToken`.
pub fn parse_tokens(tokens: &[Token], index: &mut usize) -> (r: Result<Value, TokenParseError>)
    ensures
        match r {
            Ok(v) => {
                &&& value_at(token_views(tokens@), *old(index) as int) == Parsed::Ok(
                    (v@, *final(index) as int),
                )
                &&& *old(index) < *final(index) <= tokens@.len()
            },
            Err(e) => {
                &&& value_at(token_views(tokens@), *old(index) as int) == Parsed::Err(e)
                &&& *final(index) == *old(index)
            },
        },
    decreases tokens@.len() - *old(index), 1nat,
{
    let start: usize = *index;
    if start >= tokens.len() {
        return Err(TokenParseError::UnexpectedToken);
    }
    assert(token_views(tokens@)[start as int] == tokens@[start as int]@);
    match &tokens[start] {
        Token::Null => {
            *index = start + 1;
            Ok(Value::Null)
        },
        Token::True => {
            *index = start + 1;
            Ok(Value::Boolean(true))
        },
        Token::False => {
            *index = start + 1;
            Ok(Value::Boolean(false))
        },
        Token::Number(number) => {
            *index = start + 1;
            Ok(Value::Number(number.clone()))
        },
        Token::String(raw) => match parse_string(raw.as_str()) {
            Ok(value) => {
                *index = start + 1;
                Ok(value)
            },
            Err(e) => Err(e),
        },
        Token::SLeftBracket => parse_array(tokens, index),
        Token::CLeftBracket => parse_object(tokens, index),
        _ => Err(TokenParseError::UnexpectedToken),
    }
}

/// Reads the array whose opening bracket stands at `tokens[*index]` and
/// leaves `*index` after its closing bracket. On failure `*index` is
/// unchanged. The token at `*index` itself is passed over unread.
pub fn parse_array(tokens: &[Token], index: &mut usize) -> (r: Result<Value, TokenParseError>)
    ensures
        match r {
            Ok(v) => {
                &&& array_at(token_views(tokens@), *old(index) as int) == Parsed::Ok(
                    (v@, *final(index) as int),
                )
                &&& *old(index) < *final(index) <= tokens@.len()
            },
            Err(e) => {
                &&& array_at(token_views(tokens@), *old(index) as int) == Parsed::Err(e)
                &&& *final(index) == *old(index)
            },
        },
    decreases tokens@.len() - *old(index), 0nat,
{
    let ghost views = token_views(tokens@);
    let start: usize = *index;
    if start >= tokens.len() {
        assert(value_at(views, start + 1) == Parsed::Err(TokenParseError::UnexpectedToken));
        return Err(TokenParseError::UnexpectedToken);
    }
    let mut cursor: usize = start + 1;
    let mut array: Vec<Value> = Vec::new();
    assert(value_views(array@) =~= Seq::<ValueView>::empty());
    loop
        invariant
            views == token_views(tokens@),
            start == *index == *old(index),
            start < cursor <= tokens@.len(),
            elements_at(views, start + 1, Seq::empty()) == elements_at(
                views,
                cursor as int,
                value_views(array@),
            ),
        decreases tokens@.len() - cursor,
    {
        if cursor < tokens.len() {
            assert(views[cursor as int] == tokens@[cursor as int]@);
            if let Token::SRightBracket = &tokens[cursor] {
                proof {
                    Value::lemma_array_view(array);
                }
                *index = cursor + 1;
                return Ok(Value::Array(array));
            }
        }
        let ghost done = value_views(array@);
        let value = match parse_tokens(tokens, &mut cursor) {
            Ok(value) => value,
            Err(e) => {
                return Err(e);
            },
        };
        array.push(value);
        assert(value_views(array@) =~= done.push(value@));
        if cursor >= tokens.len() {
            return Err(TokenParseError::ExpectedComma);
        }
        assert(views[cursor as int] == tokens@[cursor as int]@);
        match &tokens[cursor] {
            Token::Comma => {
                cursor = cursor + 1;
            },
            Token::SRightBracket => {
                proof {
                    Value::lemma_array_view(array);
                }
                *index = cursor + 1;
                return Ok(Value::Array(array));
            },
            _ => {
                return Err(TokenParseError::ExpectedComma);
            },
        }
    }
}

/// Reads the object whose opening bracket stands at `tokens[*index]` and
/// leaves `*index` after its closing bracket. On failure `*index` is
/// unchanged. The token at `*index` itself is passed over unread.
pub fn parse_object(tokens: &[Token], index: &mut usize) -> (r: Result<Value, TokenParseError>)
    ensures
        match r {
            Ok(v) => {
                &&& object_at(token_views(tokens@), *old(index) as int) == Parsed::Ok(
                    (v@, *final(index) as int),
                )
                &&& *old(index) < *final(index) <= tokens@.len()
            },
            Err(e) => {
                &&& object_at(token_views(tokens@), *old(index) as int) == Parsed::Err(e)
                &&& *final(index) == *old(index)
            },
        },
    decreases tokens@.len() - *old(index), 0nat,
{
    let ghost views = token_views(tokens@);
    let start: usize = *index;
    if start >= tokens.len() {
        return Err(TokenParseError::ExpectedProperty);
    }
    let mut cursor: usize = start + 1;
    let mut object = Object::new();
    loop
        invariant
            views == token_views(tokens@),
            start == *index == *old(index),
            start < cursor <= tokens@.len(),
            members_at(views, start + 1, Seq::empty()) == members_at(views, cursor as int, object@),
        decreases tokens@.len() - cursor,
    {
        if cursor >= tokens.len() {
            return Err(TokenParseError::ExpectedProperty);
        }
        assert(views[cursor as int] == tokens@[cursor as int]@);
        let key = match &tokens[cursor] {
            Token::CRightBracket => {
                *index = cursor + 1;
                return Ok(Value::Object(object));
            },
            Token::String(s) => s,
            _ => {
                return Err(TokenParseError::ExpectedProperty);
            },
        };
        if tokens.len() - cursor < 2 {
            return Err(TokenParseError::ExpectedColon);
        }
        assert(views[cursor + 1] == tokens@[cursor + 1]@);
        match &tokens[cursor + 1] {
            Token::Colon => {},
            _ => {
                return Err(TokenParseError::ExpectedColon);
            },
        }
        cursor = cursor + 2;
        let value = match parse_tokens(tokens, &mut cursor) {
            Ok(value) => value,
            Err(e) => {
                return Err(e);
            },
        };
        object.insert(key.clone(), value);
        if cursor >= tokens.len() {
            return Err(TokenParseError::ExpectedComma);
        }
        assert(views[cursor as int] == tokens@[cursor as int]@);
        match &tokens[cursor] {
            Token::Comma => {
                cursor = cursor + 1;
            },
            Token::CRightBracket => {
                *index = cursor + 1;
                return Ok(Value::Object(object));
            },
            _ => {
                return Err(TokenParseError::ExpectedComma);
            },
        }
    }
}

} // verus!
