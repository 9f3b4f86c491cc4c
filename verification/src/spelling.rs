//! How a literal is spelled, and what the tokenizer makes of the spelling.
//!
//! [`Literal::text`] writes a literal without blanks. The laws of this
//! module say that the tokenizer reads that text as the tokens of the
//! literal, and so that a whole document is read as the value that it
//! stands for.

use vstd::prelude::*;
use crate::literal::{
    bracket_depth, element_tokens, lemma_literal_is_parsed, member_tokens, Literal,
};
use crate::number::{is_decimal_literal, unsigned_part};
use crate::parse::decode;
use crate::text::{is_digit, is_whitespace};
use crate::tokenize::{
    keyword_text, number_end, prepend_tokens, string_end, token_start, tokens_from, tokens_of, Scan,
    TokenView, Tokens,
};
use crate::{document, Outcome};

verus! {

/// `raw` between two quotes.
pub open spec fn quoted(raw: Seq<char>) -> Seq<char> {
    seq!['"'] + raw + seq!['"']
}

/// Whether `raw` can stand between two quotes: read from its first
/// character on, the first quote that no backslash escapes is the one after
/// its last character.
pub open spec fn closes(raw: Seq<char>) -> bool {
    string_end(raw.push('"'), 0, false) == raw.len()
}

/// Whether `literal` can stand as a number: it is a decimal literal, and it
/// begins with a digit or a minus sign.
pub open spec fn begins_number(literal: Seq<char>) -> bool {
    is_decimal_literal(literal) && literal.len() > 0 && (is_digit(literal[0]) || literal[0] == '-')
}

/// Whether a token can end before `after`: nothing follows, or a comma or
/// a closing bracket does.
pub open spec fn ends_token(after: Seq<char>) -> bool {
    after.len() == 0 || after[0] == ',' || after[0] == ']' || after[0] == '}'
}

/// The text of the elements of an array from the `k`-th on, with a comma
/// between each two.
pub open spec fn element_text(items: Seq<Literal>, k: int) -> Seq<char>
    decreases items, items.len() - k,
{
    if !(0 <= k < items.len()) {
        Seq::empty()
    } else if k == items.len() - 1 {
        items[k].text()
    } else {
        items[k].text() + seq![','] + element_text(items, k + 1)
    }
}

/// The text of the members of an object from the `k`-th on, with a comma
/// between each two: of each member its key in quotes, a colon and its value.
pub open spec fn member_text(members: Seq<(Seq<char>, Literal)>, k: int) -> Seq<char>
    decreases members, members.len() - k,
{
    if !(0 <= k < members.len()) {
        Seq::empty()
    } else {
        let member = quoted(members[k].0) + seq![':'] + members[k].1.text();
        if k == members.len() - 1 {
            member
        } else {
            member + seq![','] + member_text(members, k + 1)
        }
    }
}

impl Literal {
    /// The literal written out, without blanks.
    pub open spec fn text(self) -> Seq<char>
        decreases self, 0nat,
    {
        match self {
            Literal::Null => keyword_text(TokenView::Null),
            Literal::Boolean(b) => keyword_text(if b { TokenView::True } else { TokenView::False }),
            Literal::String(raw) => quoted(raw),
            Literal::Number(literal) => literal,
            Literal::Array(items) => seq!['['] + element_text(items, 0) + seq![']'],
            Literal::Object(members) => seq!['{'] + member_text(members, 0) + seq!['}'],
        }
    }

    /// Whether the literal can be written: every string and key can stand
    /// between quotes, every string that is a value can be decoded, and
    /// every number can stand as a number.
    pub open spec fn writable(self) -> bool
        decreases self,
    {
        match self {
            Literal::String(raw) => closes(raw) && decode(raw) is Ok,
            Literal::Number(literal) => begins_number(literal),
            Literal::Array(items) => forall|i: int|
                0 <= i < items.len() ==> (#[trigger] items[i]).writable(),
            Literal::Object(members) => forall|i: int|
                0 <= i < members.len() ==> closes((#[trigger] members[i]).0)
                    && members[i].1.writable(),
            _ => true,
        }
    }
}

/// A literal that can be written is well-formed.
pub proof fn lemma_writable_is_well_formed(lit: Literal)
    requires
        lit.writable(),
    ensures
        lit.well_formed(),
    decreases lit,
{
    match lit {
        Literal::Array(items) => {
            assert forall|i: int| 0 <= i < items.len() implies (
            #[trigger] items[i]).well_formed() by {
                lemma_writable_is_well_formed(items[i]);
            }
        },
        Literal::Object(members) => {
            assert forall|i: int|
                0 <= i < members.len() implies (#[trigger] members[i]).1.well_formed() by {
                lemma_writable_is_well_formed(members[i].1);
            }
        },
        _ => {},
    }
}

/// Putting tokens in front twice is putting all of them in front once.
pub proof fn lemma_prepend_twice(
    a: Seq<TokenView>,
    b: Seq<TokenView>,
    rest: Tokens,
)
    ensures
        prepend_tokens(a, prepend_tokens(b, rest)) == prepend_tokens(a + b, rest),
{
    match rest {
        Ok(tokens) => {
            assert(a + (b + tokens) =~= (a + b) + tokens);
        },
        Err(_) => {},
    }
}

/// Where a token begins at `at`, with no blank before it, the tokens from
/// `at` on are that token and the tokens after it.
pub proof fn lemma_token_step(s: Seq<char>, at: int, token: TokenView, next: int)
    requires
        0 <= at < s.len(),
        !is_whitespace(s[at]),
        token_start(s, at) == Scan::Ok((token, next)),
    ensures
        tokens_from(s, at) == prepend_tokens(seq![token], tokens_from(s, next)),
{
}

/// The quote that closes a string is found by the characters up to it alone.
pub proof fn lemma_string_end_local(
    s: Seq<char>,
    at: int,
    raw: Seq<char>,
    from: int,
    escaping: bool,
)
    requires
        0 <= at,
        0 <= from <= raw.len(),
        at + (raw.len() - from) < s.len(),
        forall|k: int| from <= k < raw.len() ==> s[at + (k - from)] == #[trigger] raw[k],
        s[at + (raw.len() - from)] == '"',
        string_end(raw.push('"'), from, escaping) == raw.len(),
    ensures
        string_end(s, at, escaping) == at + (raw.len() - from),
    decreases raw.len() - from,
{
    let closed = raw.push('"');
    if from < raw.len() {
        assert(closed[from] == raw[from]);
        assert(s[at] == raw[from]);
        let then = if raw[from] == '\\' { !escaping } else { false };
        assert forall|k: int| from + 1 <= k < raw.len() implies s[(at + 1) + (k - (from + 1))]
            == #[trigger] raw[k] by {
            assert(s[at + (k - from)] == raw[k]);
        }
        lemma_string_end_local(s, at + 1, raw, from + 1, then);
    } else {
        assert(closed[from] == '"');
        assert(string_end(closed, from + 1, false) == from + 1);
        assert(!escaping);
    }
}

/// The end of a number is found by its characters and the one after them.
pub proof fn lemma_number_end_local(
    s: Seq<char>,
    at: int,
    body: Seq<char>,
    from: int,
    has_decimal: bool,
)
    requires
        0 <= at,
        0 <= from <= body.len(),
        at + (body.len() - from) <= s.len(),
        forall|k: int| from <= k < body.len() ==> s[at + (k - from)] == #[trigger] body[k],
        forall|k: int| from <= k < body.len() ==> is_digit(#[trigger] body[k]) || body[k] == '.',
        forall|i: int, j: int|
            from <= i < body.len() && from <= j < body.len() && #[trigger] body[i] == '.'
                && #[trigger] body[j] == '.' ==> i == j,
        has_decimal ==> forall|k: int| from <= k < body.len() ==> #[trigger] body[k] != '.',
        at + (body.len() - from) < s.len() ==> !is_digit(s[at + (body.len() - from)]) && s[at + (
        body.len() - from)] != '.',
    ensures
        number_end(s, at, has_decimal) == at + (body.len() - from),
    decreases body.len() - from,
{
    if from < body.len() {
        assert(s[at] == body[from]);
        assert(is_digit(body[from]) || body[from] == '.');
        let then = has_decimal || !is_digit(body[from]);
        assert forall|k: int| from + 1 <= k < body.len() implies s[(at + 1) + (k - (from + 1))]
            == #[trigger] body[k] by {
            assert(s[at + (k - from)] == body[k]);
        }
        if then {
            assert forall|k: int| from + 1 <= k < body.len() implies #[trigger] body[k] != '.' by {
                if !has_decimal && body[k] == '.' {
                    assert(body[from] == '.' && body[k] == '.');
                }
            }
        }
        lemma_number_end_local(s, at + 1, body, from + 1, then);
    }
}

/// The tokenizer reads a keyword where it is written.
pub proof fn lemma_keyword_step(s: Seq<char>, at: int, token: TokenView)
    requires
        token is Null || token is True || token is False,
        0 <= at,
        at + keyword_text(token).len() <= s.len(),
        s.subrange(at, at + keyword_text(token).len()) == keyword_text(token),
    ensures
        tokens_from(s, at) == prepend_tokens(
            seq![token],
            tokens_from(s, at + keyword_text(token).len()),
        ),
{
    let word = keyword_text(token);
    assert(s[at] == s.subrange(at, at + word.len())[0]);
    lemma_token_step(s, at, token, at + word.len());
}

/// The tokenizer reads a string where it is written between quotes.
pub proof fn lemma_string_step(s: Seq<char>, at: int, raw: Seq<char>)
    requires
        closes(raw),
        0 <= at,
        at + raw.len() + 2 <= s.len(),
        s.subrange(at, at + raw.len() + 2) == quoted(raw),
    ensures
        tokens_from(s, at) == prepend_tokens(
            seq![TokenView::String(raw)],
            tokens_from(s, at + raw.len() + 2),
        ),
{
    let part = s.subrange(at, at + raw.len() + 2);
    assert(s[at] == part[0]);
    assert(s[at + raw.len() + 1] == part[raw.len() as int + 1]);
    assert forall|k: int| 0 <= k < raw.len() implies s[(at + 1) + (k - 0)] == #[trigger] raw[k] by {
        assert(s[at + 1 + k] == part[k + 1]);
    }
    lemma_string_end_local(s, at + 1, raw, 0, false);
    assert(s.subrange(at + 1, at + 1 + raw.len()) =~= raw);
    lemma_token_step(s, at, TokenView::String(raw), at + raw.len() + 2);
}

/// The tokenizer reads a number where it is written and nothing that could
/// continue it follows.
pub proof fn lemma_number_step(s: Seq<char>, at: int, literal: Seq<char>)
    requires
        begins_number(literal),
        0 <= at,
        at + literal.len() <= s.len(),
        s.subrange(at, at + literal.len()) == literal,
        at + literal.len() < s.len() ==> !is_digit(s[at + literal.len()]) && s[at + literal.len()]
            != '.',
    ensures
        tokens_from(s, at) == prepend_tokens(
            seq![TokenView::Number(literal)],
            tokens_from(s, at + literal.len()),
        ),
{
    let part = s.subrange(at, at + literal.len());
    assert(s[at] == part[0]);
    let body = unsigned_part(literal);
    let sign: int = if literal[0] == '-' { 1 } else { 0 };
    assert forall|k: int| 0 <= k < body.len() implies s[(at + sign) + (k - 0)]
        == #[trigger] body[k] by {
        assert(s[at + sign + k] == part[k + sign]);
    }
    lemma_number_end_local(s, at + sign, body, 0, false);
    assert(s.subrange(at, at + literal.len()) =~= literal);
    lemma_token_step(s, at, TokenView::Number(literal), at + literal.len());
}

/// The tokenizer reads a one-character token where it is written.
pub proof fn lemma_mark_step(s: Seq<char>, at: int, token: TokenView)
    requires
        0 <= at < s.len(),
        token_start(s, at) == Scan::Ok((token, at + 1)),
        s[at] == '[' || s[at] == ']' || s[at] == '{' || s[at] == '}' || s[at] == ',' || s[at]
            == ':',
    ensures
        tokens_from(s, at) == prepend_tokens(seq![token], tokens_from(s, at + 1)),
{
    lemma_token_step(s, at, token, at + 1);
}

/// Putting no tokens in front changes nothing.
pub proof fn lemma_prepend_nothing(rest: Tokens)
    ensures
        prepend_tokens(Seq::empty(), rest) == rest,
{
    match rest {
        Ok(tokens) => {
            assert(Seq::<TokenView>::empty() + tokens =~= tokens);
        },
        Err(_) => {},
    }
}

/// The tokenizer reads the text of a literal that can be written, wherever
/// it stands before the end of a token, as the tokens of the literal, and
/// goes on after it.
pub proof fn lemma_tokens_of_literal(lit: Literal, before: Seq<char>, after: Seq<char>)
    requires
        lit.writable(),
        ends_token(after),
    ensures
        tokens_from(before + lit.text() + after, before.len() as int) == prepend_tokens(
            lit.tokens(),
            tokens_from(before + lit.text() + after, (before.len() + lit.text().len()) as int),
        ),
    decreases lit, 0nat,
{
    let s = before + lit.text() + after;
    let at = before.len() as int;
    let text = lit.text();
    assert(s.subrange(at, at + text.len()) =~= text);
    match lit {
        Literal::Null => {
            lemma_keyword_step(s, at, TokenView::Null);
        },
        Literal::Boolean(b) => {
            lemma_keyword_step(s, at, if b { TokenView::True } else { TokenView::False });
        },
        Literal::String(raw) => {
            lemma_string_step(s, at, raw);
        },
        Literal::Number(literal) => {
            if after.len() > 0 {
                assert(s[at + literal.len()] == after[0]);
            }
            lemma_number_step(s, at, literal);
        },
        Literal::Array(items) => {
            lemma_tokens_of_array(items, before, after);
        },
        Literal::Object(members) => {
            lemma_tokens_of_object(members, before, after);
        },
    }
}

/// The tokenizer reads the text of an array as its tokens, and goes on
/// after it.
pub proof fn lemma_tokens_of_array(items: Seq<Literal>, before: Seq<char>, after: Seq<char>)
    requires
        forall|i: int| 0 <= i < items.len() ==> (#[trigger] items[i]).writable(),
    ensures
        tokens_from(before + Literal::Array(items).text() + after, before.len() as int)
            == prepend_tokens(
            Literal::Array(items).tokens(),
            tokens_from(
                before + Literal::Array(items).text() + after,
                (before.len() + Literal::Array(items).text().len()) as int,
            ),
        ),
    decreases items, items.len() + 1,
{
    let lit = Literal::Array(items);
    let s = before + lit.text() + after;
    let at = before.len() as int;
    let open = before + seq!['['];
    let inner = element_text(items, 0);
    let inner_tokens = element_tokens(items, 0);
    let end = at + 1 + inner.len();
    let rest = tokens_from(s, end + 1);
    assert(s =~= open + inner + (seq![']'] + after));
    assert(tokens_from(s, at) == prepend_tokens(
        seq![TokenView::SLeftBracket],
        tokens_from(s, at + 1),
    )) by {
        assert(s[at] == '[');
        lemma_mark_step(s, at, TokenView::SLeftBracket);
    }
    assert(tokens_from(s, at + 1) == prepend_tokens(inner_tokens, tokens_from(s, end))) by {
        lemma_tokens_of_elements(items, 0, open, seq![']'] + after);
    }
    assert(tokens_from(s, end) == prepend_tokens(seq![TokenView::SRightBracket], rest)) by {
        assert(s[end] == ']');
        lemma_mark_step(s, end, TokenView::SRightBracket);
    }
    lemma_prepend_twice(inner_tokens, seq![TokenView::SRightBracket], rest);
    lemma_prepend_twice(
        seq![TokenView::SLeftBracket],
        inner_tokens + seq![TokenView::SRightBracket],
        rest,
    );
    assert(lit.tokens() =~= seq![TokenView::SLeftBracket] + (inner_tokens
        + seq![TokenView::SRightBracket]));
}

/// The tokenizer reads the text of an object as its tokens, and goes on
/// after it.
pub proof fn lemma_tokens_of_object(
    members: Seq<(Seq<char>, Literal)>,
    before: Seq<char>,
    after: Seq<char>,
)
    requires
        forall|i: int|
            0 <= i < members.len() ==> closes((#[trigger] members[i]).0) && members[i].1.writable(),
    ensures
        tokens_from(before + Literal::Object(members).text() + after, before.len() as int)
            == prepend_tokens(
            Literal::Object(members).tokens(),
            tokens_from(
                before + Literal::Object(members).text() + after,
                (before.len() + Literal::Object(members).text().len()) as int,
            ),
        ),
    decreases members, members.len() + 1,
{
    let lit = Literal::Object(members);
    let s = before + lit.text() + after;
    let at = before.len() as int;
    let open = before + seq!['{'];
    let inner = member_text(members, 0);
    let inner_tokens = member_tokens(members, 0);
    let end = at + 1 + inner.len();
    let rest = tokens_from(s, end + 1);
    assert(s =~= open + inner + (seq!['}'] + after));
    assert(tokens_from(s, at) == prepend_tokens(
        seq![TokenView::CLeftBracket],
        tokens_from(s, at + 1),
    )) by {
        assert(s[at] == '{');
        lemma_mark_step(s, at, TokenView::CLeftBracket);
    }
    assert(tokens_from(s, at + 1) == prepend_tokens(inner_tokens, tokens_from(s, end))) by {
        lemma_tokens_of_members(members, 0, open, seq!['}'] + after);
    }
    assert(tokens_from(s, end) == prepend_tokens(seq![TokenView::CRightBracket], rest)) by {
        assert(s[end] == '}');
        lemma_mark_step(s, end, TokenView::CRightBracket);
    }
    lemma_prepend_twice(inner_tokens, seq![TokenView::CRightBracket], rest);
    lemma_prepend_twice(
        seq![TokenView::CLeftBracket],
        inner_tokens + seq![TokenView::CRightBracket],
        rest,
    );
    assert(lit.tokens() =~= seq![TokenView::CLeftBracket] + (inner_tokens
        + seq![TokenView::CRightBracket]));
}

/// The tokenizer reads the text of the elements of an array from the
/// `k`-th on as their tokens, and goes on after it.
pub proof fn lemma_tokens_of_elements(
    items: Seq<Literal>,
    k: int,
    before: Seq<char>,
    after: Seq<char>,
)
    requires
        0 <= k <= items.len(),
        forall|i: int| 0 <= i < items.len() ==> (#[trigger] items[i]).writable(),
        ends_token(after),
    ensures
        tokens_from(before + element_text(items, k) + after, before.len() as int) == prepend_tokens(
            element_tokens(items, k),
            tokens_from(
                before + element_text(items, k) + after,
                (before.len() + element_text(items, k).len()) as int,
            ),
        ),
    decreases items, items.len() - k,
{
    let s = before + element_text(items, k) + after;
    let at = before.len() as int;
    if k == items.len() {
        lemma_prepend_nothing(tokens_from(s, at));
    } else {
        let item = items[k];
        let own = item.text();
        if k == items.len() - 1 {
            lemma_tokens_of_literal(item, before, after);
        } else {
            let others = element_text(items, k + 1);
            let next = at + own.len();
            lemma_tokens_of_literal(item, before, seq![','] + others + after);
            assert(s =~= before + own + (seq![','] + others + after));
            assert(s[next] == ',');
            lemma_mark_step(s, next, TokenView::Comma);
            lemma_tokens_of_elements(items, k + 1, before + own + seq![','], after);
            assert(s =~= (before + own + seq![',']) + others + after);
            let rest = tokens_from(s, next + 1 + others.len());
            lemma_prepend_twice(seq![TokenView::Comma], element_tokens(items, k + 1), rest);
            lemma_prepend_twice(
                item.tokens(),
                seq![TokenView::Comma] + element_tokens(items, k + 1),
                rest,
            );
            assert(element_tokens(items, k) =~= item.tokens() + (seq![TokenView::Comma]
                + element_tokens(items, k + 1)));
        }
    }
}

/// The tokenizer reads a key and its colon where they are written.
pub proof fn lemma_key_step(s: Seq<char>, at: int, key: Seq<char>)
    requires
        closes(key),
        0 <= at,
        at + key.len() + 3 <= s.len(),
        s.subrange(at, at + key.len() + 3) == quoted(key) + seq![':'],
    ensures
        tokens_from(s, at) == prepend_tokens(
            seq![TokenView::String(key), TokenView::Colon],
            tokens_from(s, at + key.len() + 3),
        ),
{
    let part = s.subrange(at, at + key.len() + 3);
    let colon = at + key.len() + 2;
    assert(s.subrange(at, at + key.len() + 2) =~= quoted(key)) by {
        assert forall|i: int| 0 <= i < key.len() + 2 implies s[at + i] == quoted(key)[i] by {
            assert(s[at + i] == part[i]);
        }
    }
    lemma_string_step(s, at, key);
    assert(s[colon] == part[key.len() as int + 2]);
    lemma_mark_step(s, colon, TokenView::Colon);
    lemma_prepend_twice(
        seq![TokenView::String(key)],
        seq![TokenView::Colon],
        tokens_from(s, colon + 1),
    );
    assert(seq![TokenView::String(key)] + seq![TokenView::Colon] =~= seq![
        TokenView::String(key),
        TokenView::Colon,
    ]);
}

/// The text of one member of an object: its key in quotes, a colon and its value.
pub open spec fn one_member_text(key: Seq<char>, value: Literal) -> Seq<char> {
    quoted(key) + seq![':'] + value.text()
}

/// The tokens of one member of an object: its key, a colon and its value.
pub open spec fn one_member_tokens(key: Seq<char>, value: Literal) -> Seq<TokenView> {
    seq![TokenView::String(key), TokenView::Colon] + value.tokens()
}

/// The tokenizer reads the text of one member of an object as its tokens,
/// and goes on after it.
pub proof fn lemma_tokens_of_member(
    key: Seq<char>,
    value: Literal,
    before: Seq<char>,
    after: Seq<char>,
)
    requires
        closes(key),
        value.writable(),
        ends_token(after),
    ensures
        tokens_from(before + one_member_text(key, value) + after, before.len() as int)
            == prepend_tokens(
            one_member_tokens(key, value),
            tokens_from(
                before + one_member_text(key, value) + after,
                (before.len() + one_member_text(key, value).len()) as int,
            ),
        ),
    decreases value, 1nat,
{
    let s = before + one_member_text(key, value) + after;
    let at = before.len() as int;
    let head = quoted(key) + seq![':'];
    let own = value.text();
    let begin = at + key.len() + 3;
    assert(s.subrange(at, at + key.len() + 3) =~= head);
    lemma_key_step(s, at, key);
    assert(s =~= (before + head) + own + after);
    lemma_tokens_of_literal(value, before + head, after);
    lemma_prepend_twice(
        seq![TokenView::String(key), TokenView::Colon],
        value.tokens(),
        tokens_from(s, begin + own.len()),
    );
}

/// The tokenizer reads the text of the members of an object from the
/// `k`-th on as their tokens, and goes on after it.
pub proof fn lemma_tokens_of_members(
    members: Seq<(Seq<char>, Literal)>,
    k: int,
    before: Seq<char>,
    after: Seq<char>,
)
    requires
        0 <= k <= members.len(),
        forall|i: int|
            0 <= i < members.len() ==> closes((#[trigger] members[i]).0) && members[i].1.writable(),
        ends_token(after),
    ensures
        tokens_from(before + member_text(members, k) + after, before.len() as int)
            == prepend_tokens(
            member_tokens(members, k),
            tokens_from(
                before + member_text(members, k) + after,
                (before.len() + member_text(members, k).len()) as int,
            ),
        ),
    decreases members, members.len() - k,
{
    let s = before + member_text(members, k) + after;
    let at = before.len() as int;
    if k == members.len() {
        lemma_prepend_nothing(tokens_from(s, at));
    } else {
        let key = members[k].0;
        let item = members[k].1;
        let own = one_member_text(key, item);
        let own_tokens = one_member_tokens(key, item);
        assert(members[k].1.writable());
        if k == members.len() - 1 {
            lemma_tokens_of_member(key, item, before, after);
        } else {
            let others = member_text(members, k + 1);
            let next = at + own.len();
            lemma_tokens_of_member(key, item, before, seq![','] + others + after);
            assert(s =~= before + own + (seq![','] + others + after));
            assert(s[next] == ',');
            lemma_mark_step(s, next, TokenView::Comma);
            lemma_tokens_of_members(members, k + 1, before + own + seq![','], after);
            assert(s =~= (before + own + seq![',']) + others + after);
            let rest = tokens_from(s, next + 1 + others.len());
            lemma_prepend_twice(seq![TokenView::Comma], member_tokens(members, k + 1), rest);
            lemma_prepend_twice(
                own_tokens,
                seq![TokenView::Comma] + member_tokens(members, k + 1),
                rest,
            );
            assert(member_tokens(members, k) =~= own_tokens + (seq![TokenView::Comma]
                + member_tokens(members, k + 1)));
        }
    }
}

/// A document that can be written is read as it is meant: its text gives
/// the tokens of the literal, these give the value that the literal stands
/// for, and where no object of it has a key twice, that value is nested
/// exactly as deeply as the brackets of the text are.
///
/// A repeated key is left out of the last part because the value that it
/// had first is lost, and with it the brackets of that value.
pub proof fn lemma_document_is_read(lit: Literal)
    requires
        lit.writable(),
    ensures
        tokens_of(lit.text()) == Tokens::Ok(lit.tokens()),
        document(lit.text()) == Outcome::Ok(lit.value()),
        lit.keys_once() ==> lit.value().depth() == bracket_depth(lit.tokens()),
{
    let text = lit.text();
    lemma_tokens_of_literal(lit, Seq::empty(), Seq::empty());
    assert(Seq::<char>::empty() + text + Seq::<char>::empty() =~= text);
    assert(lit.tokens() + Seq::<TokenView>::empty() =~= lit.tokens());
    lemma_writable_is_well_formed(lit);
    lemma_literal_is_parsed(lit);
}

/// However a document is laid out: a text whose tokens are those of a
/// well-formed literal is read as the value that the literal stands for,
/// and where no object of it has a key twice, that value is nested exactly
/// as deeply as the brackets among the tokens are.
pub proof fn lemma_document_of_tokens(text: Seq<char>, lit: Literal)
    requires
        lit.well_formed(),
        tokens_of(text) == Tokens::Ok(lit.tokens()),
    ensures
        document(text) == Outcome::Ok(lit.value()),
        lit.keys_once() ==> lit.value().depth() == bracket_depth(lit.tokens()),
{
    lemma_literal_is_parsed(lit);
}

} // verus!
