//! Well-formed literals and what the parser makes of them.
//!
//! A [`Literal`] is a document as it is written: its arrays hold their
//! elements and its objects their members in the order of writing, a
//! string holds its raw characters. The laws of this module say that the
//! parser reads the tokens of every well-formed literal as the value that
//! the literal stands for, and that this value is nested as deeply as the
//! brackets of the literal are.

use vstd::prelude::*;
use crate::parse::{decode, elements_at, members_at, token_is, value_at, Parsed};
use crate::tokenize::TokenView;
use crate::value::{
    distinct_keys, lemma_key_index_is, max_depth, max_member_depth, put, Members, ValueView,
};

verus! {

/// A document as it is written.
pub enum Literal {
    Null,
    Boolean(bool),
    /// A string, with the raw characters between its quotes.
    String(Seq<char>),
    /// A number, with the characters of its literal.
    Number(Seq<char>),
    /// An array, with its elements in the order of writing.
    Array(Seq<Literal>),
    /// An object, with its members in the order of writing; a key is the
    /// raw content of its string.
    Object(Seq<(Seq<char>, Literal)>),
}

/// The tokens of the elements of an array from the `k`-th on, with a comma
/// between each two.
pub open spec fn element_tokens(items: Seq<Literal>, k: int) -> Seq<TokenView>
    decreases items, items.len() - k,
{
    if !(0 <= k < items.len()) {
        Seq::empty()
    } else if k == items.len() - 1 {
        items[k].tokens()
    } else {
        items[k].tokens() + seq![TokenView::Comma] + element_tokens(items, k + 1)
    }
}

/// The tokens of the members of an object from the `k`-th on, with a comma
/// between each two: of each member its key, a colon and its value.
pub open spec fn member_tokens(members: Seq<(Seq<char>, Literal)>, k: int) -> Seq<TokenView>
    decreases members, members.len() - k,
{
    if !(0 <= k < members.len()) {
        Seq::empty()
    } else {
        let member = seq![TokenView::String(members[k].0), TokenView::Colon]
            + members[k].1.tokens();
        if k == members.len() - 1 {
            member
        } else {
            member + seq![TokenView::Comma] + member_tokens(members, k + 1)
        }
    }
}

/// The members that come of giving each key of `pairs` its value, one pair
/// after the other.
pub open spec fn put_all(pairs: Members) -> Members
    decreases pairs.len(),
{
    if pairs.len() == 0 {
        Seq::empty()
    } else {
        put(put_all(pairs.drop_last()), pairs.last().0, pairs.last().1)
    }
}

/// The greatest nesting among `items`; 0 if there are none.
pub open spec fn max_nesting(items: Seq<Literal>) -> nat
    decreases items, 0nat,
{
    if items.len() == 0 {
        0
    } else {
        let first = max_nesting(items.drop_last());
        let last = items.last().nesting();
        if first >= last { first } else { last }
    }
}

/// The greatest nesting among the values of `members`; 0 if there are none.
pub open spec fn max_member_nesting(members: Seq<(Seq<char>, Literal)>) -> nat
    decreases members, 0nat,
{
    if members.len() == 0 {
        0
    } else {
        let first = max_member_nesting(members.drop_last());
        let last = members.last().1.nesting();
        if first >= last { first } else { last }
    }
}

/// The values of the elements of an array.
pub open spec fn element_values(items: Seq<Literal>) -> Seq<ValueView>
    decreases items,
{
    Seq::new(
        items.len(),
        |i: int|
            if 0 <= i < items.len() {
                items[i].value()
            } else {
                ValueView::Null
            },
    )
}

/// The members of an object as they are written, each with the value that
/// its literal stands for.
pub open spec fn member_values(members: Seq<(Seq<char>, Literal)>) -> Members
    decreases members,
{
    Seq::new(
        members.len(),
        |i: int|
            if 0 <= i < members.len() {
                (members[i].0, members[i].1.value())
            } else {
                (Seq::empty(), ValueView::Null)
            },
    )
}

impl Literal {
    /// The tokens that spell the literal.
    pub open spec fn tokens(self) -> Seq<TokenView>
        decreases self, 0nat,
    {
        match self {
            Literal::Null => seq![TokenView::Null],
            Literal::Boolean(b) => seq![if b { TokenView::True } else { TokenView::False }],
            Literal::String(raw) => seq![TokenView::String(raw)],
            Literal::Number(literal) => seq![TokenView::Number(literal)],
            Literal::Array(items) => seq![TokenView::SLeftBracket] + element_tokens(items, 0)
                + seq![TokenView::SRightBracket],
            Literal::Object(members) => seq![TokenView::CLeftBracket] + member_tokens(members, 0)
                + seq![TokenView::CRightBracket],
        }
    }

    /// Every string of the literal that stands as a value can be decoded.
    pub open spec fn well_formed(self) -> bool
        decreases self,
    {
        match self {
            Literal::String(raw) => decode(raw) is Ok,
            Literal::Array(items) => forall|i: int|
                0 <= i < items.len() ==> (#[trigger] items[i]).well_formed(),
            Literal::Object(members) => forall|i: int|
                0 <= i < members.len() ==> (#[trigger] members[i]).1.well_formed(),
            _ => true,
        }
    }

    /// No object of the literal has a key twice.
    pub open spec fn keys_once(self) -> bool
        decreases self,
    {
        match self {
            Literal::Array(items) => forall|i: int|
                0 <= i < items.len() ==> (#[trigger] items[i]).keys_once(),
            Literal::Object(members) => {
                &&& forall|i: int, j: int|
                    0 <= i < members.len() && 0 <= j < members.len() && i != j ==> (
                    #[trigger] members[i]).0 != (#[trigger] members[j]).0
                &&& forall|i: int|
                    0 <= i < members.len() ==> (#[trigger] members[i]).1.keys_once()
            },
            _ => true,
        }
    }

    /// The value that the literal stands for: a string stands for its
    /// decoded characters, an array for the values of its elements, an
    /// object for what comes of giving each key its value in the order of
    /// writing.
    pub open spec fn value(self) -> ValueView
        decreases self,
    {
        match self {
            Literal::Null => ValueView::Null,
            Literal::Boolean(b) => ValueView::Boolean(b),
            Literal::String(raw) => ValueView::String(
                match decode(raw) {
                    Ok(chars) => chars,
                    Err(_) => Seq::empty(),
                },
            ),
            Literal::Number(literal) => ValueView::Number(literal),
            Literal::Array(items) => ValueView::Array(element_values(items)),
            Literal::Object(members) => ValueView::Object(put_all(member_values(members))),
        }
    }

    /// How deeply brackets are nested in the literal: 0 for a scalar, and
    /// for an array or an object one more than the deepest of its parts.
    pub open spec fn nesting(self) -> nat
        decreases self, 1nat,
    {
        match self {
            Literal::Array(items) => 1 + max_nesting(items),
            Literal::Object(members) => 1 + max_member_nesting(members),
            _ => 0,
        }
    }

    /// A literal has a token, and its first token begins a value.
    pub proof fn lemma_first_token(self)
        ensures
            self.tokens().len() >= 1,
            self.tokens()[0] != TokenView::SRightBracket,
            self.tokens()[0] != TokenView::CRightBracket,
            self.tokens()[0] != TokenView::Comma,
            self.tokens()[0] != TokenView::Colon,
    {
    }

    /// The parser reads the tokens of a well-formed literal, wherever they
    /// stand, as the value of the literal, and ends after them.
    pub proof fn lemma_parse(self, before: Seq<TokenView>, after: Seq<TokenView>)
        requires
            self.well_formed(),
        ensures
            value_at(before + self.tokens() + after, before.len() as int) == Parsed::Ok(
                (self.value(), (before.len() + self.tokens().len()) as int),
            ),
        decreases self, 0nat,
    {
        let all = before + self.tokens() + after;
        let at = before.len() as int;
        self.lemma_first_token();
        assert(all[at] == self.tokens()[0]);
        match self {
            Literal::Array(items) => {
                let open = before + seq![TokenView::SLeftBracket];
                lemma_parse_elements(items, 0, open, after);
                assert(all =~= open + element_tokens(items, 0) + seq![TokenView::SRightBracket]
                    + after);
                assert(element_values(items).take(0) =~= Seq::<ValueView>::empty());
            },
            Literal::Object(members) => {
                let open = before + seq![TokenView::CLeftBracket];
                lemma_parse_members(members, 0, open, seq![TokenView::CRightBracket] + after);
                assert(all =~= open + member_tokens(members, 0) + (seq![TokenView::CRightBracket]
                    + after));
                assert(member_values(members).take(0) =~= Seq::<(Seq<char>, ValueView)>::empty());
                assert(put_all(member_values(members).take(0)) == Seq::<
                    (Seq<char>, ValueView),
                >::empty());
            },
            _ => {},
        }
    }
}

/// After the first `k` elements of an array were read, the parser reads the
/// tokens of the others, and the closing bracket, as the whole array.
pub proof fn lemma_parse_elements(
    items: Seq<Literal>,
    k: int,
    before: Seq<TokenView>,
    after: Seq<TokenView>,
)
    requires
        0 <= k <= items.len(),
        forall|i: int| 0 <= i < items.len() ==> (#[trigger] items[i]).well_formed(),
    ensures
        elements_at(
            before + element_tokens(items, k) + seq![TokenView::SRightBracket] + after,
            before.len() as int,
            element_values(items).take(k),
        ) == Parsed::Ok(
            (
                ValueView::Array(element_values(items)),
                (before.len() + element_tokens(items, k).len() + 1) as int,
            ),
        ),
    decreases items, items.len() - k,
{
    let close = seq![TokenView::SRightBracket];
    let all = before + element_tokens(items, k) + close + after;
    let at = before.len() as int;
    let values = element_values(items);
    let done = values.take(k);
    if k == items.len() {
        assert(all[at] == TokenView::SRightBracket);
        assert(done =~= values);
    } else {
        let item = items[k];
        let own = item.tokens();
        let next = at + own.len();
        item.lemma_first_token();
        assert(all[at] == own[0]);
        assert(done.push(item.value()) =~= values.take(k + 1));
        if k == items.len() - 1 {
            item.lemma_parse(before, close + after);
            assert(all =~= before + own + (close + after));
            assert(all[next] == TokenView::SRightBracket);
            assert(values.take(k + 1) =~= values);
        } else {
            let comma = seq![TokenView::Comma];
            let others = element_tokens(items, k + 1);
            item.lemma_parse(before, comma + others + close + after);
            assert(all =~= before + own + (comma + others + close + after));
            assert(all[next] == TokenView::Comma);
            lemma_parse_elements(items, k + 1, before + own + comma, after);
            assert(all =~= (before + own + comma) + others + close + after);
        }
    }
}

/// Giving the first `k + 1` keys their values is giving the first `k` keys
/// theirs, and then the next key its value.
pub proof fn lemma_put_all_take(pairs: Members, k: int)
    requires
        0 <= k < pairs.len(),
    ensures
        put_all(pairs.take(k + 1)) == put(put_all(pairs.take(k)), pairs[k].0, pairs[k].1),
{
    assert(pairs.take(k + 1).drop_last() =~= pairs.take(k));
    assert(pairs.take(k + 1).last() == pairs[k]);
}

/// What reading one more member of an object comes to: where a key, a
/// colon and a value stand at `i`, the object goes on after a comma and
/// ends with a closing bracket, in both cases with the key given the value.
pub proof fn lemma_member_read(
    tokens: Seq<TokenView>,
    i: int,
    done: Members,
    key: Seq<char>,
    value: ValueView,
    next: int,
)
    requires
        token_is(tokens, i, TokenView::String(key)),
        token_is(tokens, i + 1, TokenView::Colon),
        value_at(tokens, i + 2) == Parsed::Ok((value, next)),
        i < next,
    ensures
        token_is(tokens, next, TokenView::Comma) ==> members_at(tokens, i, done) == members_at(
            tokens,
            next + 1,
            put(done, key, value),
        ),
        token_is(tokens, next, TokenView::CRightBracket) ==> members_at(tokens, i, done)
            == Parsed::Ok((ValueView::Object(put(done, key, value)), next + 1)),
{
}

/// Where the tokens of the members of an object from the `k`-th on stand,
/// the `k`-th key and a colon stand first, then the value of that member is
/// read, and after it stands a comma with the later members behind it, or
/// what follows the members.
pub proof fn lemma_member_shape(
    members: Seq<(Seq<char>, Literal)>,
    k: int,
    before: Seq<TokenView>,
    after: Seq<TokenView>,
)
    requires
        0 <= k < members.len(),
        forall|i: int| 0 <= i < members.len() ==> (#[trigger] members[i]).1.well_formed(),
        after.len() > 0,
    ensures
        ({
            let all = before + member_tokens(members, k) + after;
            let at = before.len() as int;
            let own = members[k].1.tokens();
            let next = at + 2 + own.len();
            &&& token_is(all, at, TokenView::String(members[k].0))
            &&& token_is(all, at + 1, TokenView::Colon)
            &&& value_at(all, at + 2) == Parsed::Ok(
                (members[k].1.value(), next),
            )
            &&& 0 <= next < all.len()
            &&& if k == members.len() - 1 {
                all[next] == after[0] && member_tokens(members, k).len() == 2 + own.len()
            } else {
                &&& all[next] == TokenView::Comma
                &&& member_tokens(members, k).len() == 2 + own.len() + 1 + member_tokens(
                    members,
                    k + 1,
                ).len()
                &&& all == (before + seq![TokenView::String(members[k].0), TokenView::Colon] + own
                    + seq![TokenView::Comma]) + member_tokens(members, k + 1) + after
            }
        }),
    decreases members, 0nat,
{
    let all = before + member_tokens(members, k) + after;
    let at = before.len() as int;
    let key = members[k].0;
    let item = members[k].1;
    let head = seq![TokenView::String(key), TokenView::Colon];
    let own = item.tokens();
    let next = at + 2 + own.len();
    assert(item.well_formed());
    assert(all[at] == TokenView::String(key));
    assert(all[at + 1] == TokenView::Colon);
    if k == members.len() - 1 {
        item.lemma_parse(before + head, after);
        assert(all =~= (before + head) + own + after);
        assert(all[next] == after[0]);
    } else {
        let comma = seq![TokenView::Comma];
        let others = member_tokens(members, k + 1);
        item.lemma_parse(before + head, comma + others + after);
        assert(all =~= (before + head) + own + (comma + others + after));
        assert(all[next] == TokenView::Comma);
        assert(all =~= (before + head + own + comma) + others + after);
    }
}

/// After the first `k` members of an object were read, the parser reads the
/// tokens of the others, and the closing bracket after them, as the whole
/// object.
pub proof fn lemma_parse_members(
    members: Seq<(Seq<char>, Literal)>,
    k: int,
    before: Seq<TokenView>,
    after: Seq<TokenView>,
)
    requires
        0 <= k <= members.len(),
        forall|i: int| 0 <= i < members.len() ==> (#[trigger] members[i]).1.well_formed(),
        after.len() > 0,
        after[0] == TokenView::CRightBracket,
    ensures
        members_at(
            before + member_tokens(members, k) + after,
            before.len() as int,
            put_all(member_values(members).take(k)),
        ) == Parsed::Ok(
            (
                ValueView::Object(put_all(member_values(members))),
                (before.len() + member_tokens(members, k).len() + 1) as int,
            ),
        ),
    decreases members, members.len() - k,
{
    let all = before + member_tokens(members, k) + after;
    let at = before.len() as int;
    let pairs = member_values(members);
    let done = put_all(pairs.take(k));
    if k == members.len() {
        assert(all[at] == after[0]);
        assert(pairs.take(k) =~= pairs);
    } else {
        let key = members[k].0;
        let item = members[k].1;
        let own = item.tokens();
        let next = at + 2 + own.len();
        item.lemma_first_token();
        lemma_member_shape(members, k, before, after);
        lemma_put_all_take(pairs, k);
        lemma_member_read(all, at, done, key, item.value(), next);
        if k == members.len() - 1 {
            assert(pairs.take(k + 1) =~= pairs);
        } else {
            let head = seq![TokenView::String(key), TokenView::Colon];
            lemma_parse_members(
                members,
                k + 1,
                before + head + own + seq![TokenView::Comma],
                after,
            );
        }
    }
}

/// Where no key comes twice, giving each key its value changes nothing.
pub proof fn lemma_put_all_distinct(pairs: Members)
    requires
        distinct_keys(pairs),
    ensures
        put_all(pairs) == pairs,
    decreases pairs.len(),
{
    if pairs.len() > 0 {
        let first = pairs.drop_last();
        let key = pairs.last().0;
        assert forall|i: int, j: int|
            0 <= i < first.len() && 0 <= j < first.len() && i != j implies (#[trigger] first[i]).0
            != (#[trigger] first[j]).0 by {
            assert(pairs[i].0 != pairs[j].0);
        }
        lemma_put_all_distinct(first);
        assert forall|i: int| 0 <= i < first.len() implies (#[trigger] first[i]).0 != key by {
            assert(pairs[i].0 != pairs[pairs.len() - 1].0);
        }
        lemma_key_index_is(first, key, first.len() as int);
        assert(first.push(pairs.last()) =~= pairs);
    }
}

/// Where each element's value is as deep as the element is nested, the
/// deepest value is as deep as the deepest nesting.
pub proof fn lemma_max_depth(items: Seq<Literal>)
    requires
        forall|i: int|
            0 <= i < items.len() ==> (#[trigger] items[i]).value().depth() == items[i].nesting(),
    ensures
        max_depth(element_values(items)) == max_nesting(items),
    decreases items.len(),
{
    if items.len() > 0 {
        lemma_max_depth(items.drop_last());
        assert(element_values(items).drop_last() =~= element_values(items.drop_last()));
        assert(element_values(items).last() == items.last().value());
    }
}

/// Where each member's value is as deep as the member is nested, the
/// deepest value is as deep as the deepest nesting.
pub proof fn lemma_max_member_depth(members: Seq<(Seq<char>, Literal)>)
    requires
        forall|i: int|
            0 <= i < members.len() ==> (#[trigger] members[i]).1.value().depth()
                == members[i].1.nesting(),
    ensures
        max_member_depth(member_values(members)) == max_member_nesting(members),
    decreases members.len(),
{
    if members.len() > 0 {
        lemma_max_member_depth(members.drop_last());
        assert(member_values(members).drop_last() =~= member_values(members.drop_last()));
        assert(member_values(members).last().1 == members.last().1.value());
    }
}

/// The value of a literal without a repeated key is as deep as the
/// literal is nested.
pub proof fn lemma_value_depth(lit: Literal)
    requires
        lit.keys_once(),
    ensures
        lit.value().depth() == lit.nesting(),
    decreases lit,
{
    match lit {
        Literal::Array(items) => {
            assert forall|i: int| 0 <= i < items.len() implies (#[trigger] items[i]).value().depth()
                == items[i].nesting() by {
                lemma_value_depth(items[i]);
            }
            lemma_max_depth(items);
        },
        Literal::Object(members) => {
            assert forall|i: int|
                0 <= i < members.len() implies (#[trigger] members[i]).1.value().depth()
                == members[i].1.nesting() by {
                lemma_value_depth(members[i].1);
            }
            lemma_max_member_depth(members);
            let pairs = member_values(members);
            assert forall|i: int, j: int|
                0 <= i < pairs.len() && 0 <= j < pairs.len() && i != j implies (
                #[trigger] pairs[i]).0 != (#[trigger] pairs[j]).0 by {
                assert(members[i].0 != members[j].0);
            }
            lemma_put_all_distinct(pairs);
        },
        _ => {},
    }
}

/// By how much a token changes the number of open brackets.
pub open spec fn level_change(token: TokenView) -> int {
    match token {
        TokenView::SLeftBracket => 1,
        TokenView::CLeftBracket => 1,
        TokenView::SRightBracket => -1,
        TokenView::CRightBracket => -1,
        _ => 0,
    }
}

/// The number of brackets that `tokens` open, less the number that they close.
pub open spec fn net_level(tokens: Seq<TokenView>) -> int
    decreases tokens.len(),
{
    if tokens.len() == 0 {
        0
    } else {
        level_change(tokens[0]) + net_level(tokens.drop_first())
    }
}

/// The greatest number of open brackets before, between or after `tokens`,
/// where `level` brackets are open before them.
pub open spec fn deepest_level(tokens: Seq<TokenView>, level: int) -> int
    decreases tokens.len(),
{
    if tokens.len() == 0 {
        level
    } else {
        let later = deepest_level(tokens.drop_first(), level + level_change(tokens[0]));
        if level >= later { level } else { later }
    }
}

/// How deeply the brackets of `tokens` are nested: the greatest number of
/// brackets that are open at once.
pub open spec fn bracket_depth(tokens: Seq<TokenView>) -> int {
    deepest_level(tokens, 0)
}

/// The levels of two runs of tokens, one after the other.
pub proof fn lemma_levels_concat(a: Seq<TokenView>, b: Seq<TokenView>, level: int)
    ensures
        net_level(a + b) == net_level(a) + net_level(b),
        deepest_level(a + b, level) == if deepest_level(a, level) >= deepest_level(
            b,
            level + net_level(a),
        ) {
            deepest_level(a, level)
        } else {
            deepest_level(b, level + net_level(a))
        },
        deepest_level(a, level) >= level,
    decreases a.len(),
{
    if a.len() == 0 {
        assert(a + b =~= b);
        lemma_deepest_at_least(b, level);
    } else {
        assert((a + b).drop_first() =~= a.drop_first() + b);
        lemma_levels_concat(a.drop_first(), b, level + level_change(a[0]));
    }
}

/// The deepest level is at least the level before the tokens.
pub proof fn lemma_deepest_at_least(tokens: Seq<TokenView>, level: int)
    ensures
        deepest_level(tokens, level) >= level,
{
}

/// The levels of a single token.
pub proof fn lemma_levels_single(token: TokenView, level: int)
    ensures
        net_level(seq![token]) == level_change(token),
        deepest_level(seq![token], level) == if level_change(token) > 0 {
            level + level_change(token)
        } else {
            level
        },
{
    assert(seq![token].drop_first() =~= Seq::<TokenView>::empty());
    assert(net_level(seq![token].drop_first()) == 0);
    assert(deepest_level(seq![token].drop_first(), level + level_change(token)) == level
        + level_change(token));
}

/// The deepest nesting is that of the first or the deepest of the others.
pub proof fn lemma_max_nesting_front(items: Seq<Literal>)
    requires
        items.len() > 0,
    ensures
        max_nesting(items) == if items[0].nesting() >= max_nesting(items.drop_first()) {
            items[0].nesting()
        } else {
            max_nesting(items.drop_first())
        },
    decreases items.len(),
{
    if items.len() == 1 {
        assert(items.drop_last() =~= Seq::<Literal>::empty());
        assert(items.drop_first() =~= Seq::<Literal>::empty());
        assert(max_nesting(items.drop_last()) == 0);
    } else {
        lemma_max_nesting_front(items.drop_last());
        assert(items.drop_last().drop_first() =~= items.drop_first().drop_last());
        assert(items.drop_first().last() == items.last());
        assert(items.drop_last()[0] == items[0]);
    }
}

/// The deepest nesting is that of the first or the deepest of the others.
pub proof fn lemma_max_member_nesting_front(members: Seq<(Seq<char>, Literal)>)
    requires
        members.len() > 0,
    ensures
        max_member_nesting(members) == if members[0].1.nesting() >= max_member_nesting(
            members.drop_first(),
        ) {
            members[0].1.nesting()
        } else {
            max_member_nesting(members.drop_first())
        },
    decreases members.len(),
{
    if members.len() == 1 {
        assert(members.drop_last() =~= Seq::<(Seq<char>, Literal)>::empty());
        assert(members.drop_first() =~= Seq::<(Seq<char>, Literal)>::empty());
        assert(max_member_nesting(members.drop_last()) == 0);
    } else {
        lemma_max_member_nesting_front(members.drop_last());
        assert(members.drop_last().drop_first() =~= members.drop_first().drop_last());
        assert(members.drop_first().last() == members.last());
        assert(members.drop_last()[0] == members[0]);
    }
}

/// The tokens of a literal close every bracket they open, and open at most
/// as many at once as the literal is nested.
pub proof fn lemma_literal_levels(lit: Literal, level: int)
    ensures
        net_level(lit.tokens()) == 0,
        deepest_level(lit.tokens(), level) == level + lit.nesting(),
    decreases lit, 0nat,
{
    match lit {
        Literal::Array(items) => {
            let open = seq![TokenView::SLeftBracket];
            let inner = element_tokens(items, 0);
            let close = seq![TokenView::SRightBracket];
            lemma_element_levels(items, 0, level + 1);
            assert(items.skip(0) =~= items);
            lemma_levels_single(TokenView::SLeftBracket, level);
            lemma_levels_single(TokenView::SRightBracket, level + 1);
            lemma_levels_concat(open, inner, level);
            lemma_levels_concat(open + inner, close, level);
        },
        Literal::Object(members) => {
            let open = seq![TokenView::CLeftBracket];
            let inner = member_tokens(members, 0);
            let close = seq![TokenView::CRightBracket];
            lemma_member_levels(members, 0, level + 1);
            assert(members.skip(0) =~= members);
            lemma_levels_single(TokenView::CLeftBracket, level);
            lemma_levels_single(TokenView::CRightBracket, level + 1);
            lemma_levels_concat(open, inner, level);
            lemma_levels_concat(open + inner, close, level);
        },
        _ => {
            lemma_levels_single(lit.tokens()[0], level);
            assert(lit.tokens() =~= seq![lit.tokens()[0]]);
        },
    }
}

/// The levels of the tokens of the elements of an array from the `k`-th on.
pub proof fn lemma_element_levels(items: Seq<Literal>, k: int, level: int)
    requires
        0 <= k <= items.len(),
    ensures
        net_level(element_tokens(items, k)) == 0,
        deepest_level(element_tokens(items, k), level) == level + max_nesting(items.skip(k)),
    decreases items, items.len() - k,
{
    if k < items.len() {
        let own = items[k].tokens();
        lemma_literal_levels(items[k], level);
        lemma_max_nesting_front(items.skip(k));
        assert(items.skip(k).drop_first() =~= items.skip(k + 1));
        if k == items.len() - 1 {
            assert(max_nesting(items.skip(k + 1)) == 0);
        } else {
            let comma = seq![TokenView::Comma];
            let others = element_tokens(items, k + 1);
            lemma_element_levels(items, k + 1, level);
            lemma_levels_single(TokenView::Comma, level);
            lemma_levels_concat(own, comma, level);
            lemma_levels_concat(own + comma, others, level);
        }
    }
}

/// The levels of the tokens of the members of an object from the `k`-th on.
pub proof fn lemma_member_levels(members: Seq<(Seq<char>, Literal)>, k: int, level: int)
    requires
        0 <= k <= members.len(),
    ensures
        net_level(member_tokens(members, k)) == 0,
        deepest_level(member_tokens(members, k), level) == level + max_member_nesting(
            members.skip(k),
        ),
    decreases members, members.len() - k,
{
    if k < members.len() {
        let key = seq![TokenView::String(members[k].0)];
        let colon = seq![TokenView::Colon];
        let own = members[k].1.tokens();
        let member = seq![TokenView::String(members[k].0), TokenView::Colon] + own;
        lemma_literal_levels(members[k].1, level);
        lemma_max_member_nesting_front(members.skip(k));
        assert(members.skip(k).drop_first() =~= members.skip(k + 1));
        lemma_levels_single(TokenView::String(members[k].0), level);
        lemma_levels_single(TokenView::Colon, level);
        lemma_levels_concat(key, colon, level);
        lemma_levels_concat(key + colon, own, level);
        assert(member =~= key + colon + own);
        if k == members.len() - 1 {
            assert(max_member_nesting(members.skip(k + 1)) == 0);
        } else {
            let comma = seq![TokenView::Comma];
            let others = member_tokens(members, k + 1);
            lemma_member_levels(members, k + 1, level);
            lemma_levels_single(TokenView::Comma, level);
            lemma_levels_concat(member, comma, level);
            lemma_levels_concat(member + comma, others, level);
        }
    }
}

/// Every well-formed literal is read as the value it stands for, all its
/// tokens are taken, and where no object of it has a key twice, the value
/// is nested exactly as deeply as the brackets of the literal are.
///
/// A repeated key is left out because the value that it had first is lost,
/// and with it the brackets of that value.
pub proof fn lemma_literal_is_parsed(lit: Literal)
    requires
        lit.well_formed(),
    ensures
        value_at(lit.tokens(), 0) == Parsed::Ok(
            (lit.value(), lit.tokens().len() as int),
        ),
        lit.keys_once() ==> lit.value().depth() == bracket_depth(lit.tokens()),
        lit.keys_once() ==> lit.value().depth() == lit.nesting(),
{
    lit.lemma_parse(Seq::empty(), Seq::empty());
    assert(Seq::<TokenView>::empty() + lit.tokens() + Seq::<TokenView>::empty() =~= lit.tokens());
    lemma_literal_levels(lit, 0);
    if lit.keys_once() {
        lemma_value_depth(lit);
    }
}

} // verus!
