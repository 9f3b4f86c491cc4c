//! The document tree: values, objects and their mathematical model.

use vstd::prelude::*;
use crate::number::Number;

verus! {

/// The mathematical value of a [`Value`].
///
/// An object is the sequence of its members, each key once, in the order in
/// which the keys first appeared.
pub enum ValueView {
    Null,
    Boolean(bool),
    String(Seq<char>),
    Number(Seq<char>),
    Array(Seq<ValueView>),
    Object(Seq<(Seq<char>, ValueView)>),
}

/// The members of an object: pairs of a key and a value.
pub type Members = Seq<(Seq<char>, ValueView)>;

/// The first position at or after `from` where `key` stands; the length of
/// `members` if there is none.
pub open spec fn find_key(members: Members, key: Seq<char>, from: int) -> int
    decreases members.len() - from,
{
    if !(0 <= from < members.len()) {
        members.len() as int
    } else if members[from].0 == key {
        from
    } else {
        find_key(members, key, from + 1)
    }
}

/// The position of `key` among `members`; their length if it is no key of them.
pub open spec fn key_index(members: Members, key: Seq<char>) -> int {
    find_key(members, key, 0)
}

/// Whether `key` is a key of `members`.
pub open spec fn has_key(members: Members, key: Seq<char>) -> bool {
    key_index(members, key) < members.len()
}

/// The value that `members` give to `key`, if any.
pub open spec fn lookup(members: Members, key: Seq<char>) -> Option<ValueView> {
    if has_key(members, key) {
        Some(members[key_index(members, key)].1)
    } else {
        None
    }
}

/// `members` after `key` was given `value`: a key that is there already keeps
/// its place and loses its former value; a new key goes to the end.
pub open spec fn put(members: Members, key: Seq<char>, value: ValueView) -> Members {
    if has_key(members, key) {
        members.update(key_index(members, key), (key, value))
    } else {
        members.push((key, value))
    }
}

/// No key stands twice.
pub open spec fn distinct_keys(members: Members) -> bool {
    forall|i: int, j: int|
        0 <= i < members.len() && 0 <= j < members.len() && i != j ==> (#[trigger] members[i]).0
            != (#[trigger] members[j]).0
}

/// The mapping that `members` stand for.
pub open spec fn as_map(members: Members) -> Map<Seq<char>, ValueView> {
    Map::new(
        |key: Seq<char>| has_key(members, key),
        |key: Seq<char>| members[key_index(members, key)].1,
    )
}

/// Whether `a` and `b` have as many members, and each key of `a` has in `b`
/// a value that is the same. Where neither has a key twice, this is to say
/// that they stand for the same mapping, in whatever order they are written.
pub open spec fn same_members(a: Members, b: Members) -> bool
    decreases a,
{
    &&& a.len() == b.len()
    &&& forall|i: int|
        0 <= i < a.len() ==> has_key(b, (#[trigger] a[i]).0) && a[i].1.same_as(
            b[key_index(b, a[i].0)].1,
        )
}

/// The greatest depth among `items`; 0 if there are none.
pub open spec fn max_depth(items: Seq<ValueView>) -> nat
    decreases items, 0nat,
{
    if items.len() == 0 {
        0
    } else {
        let first = max_depth(items.drop_last());
        let last = items.last().depth();
        if first >= last { first } else { last }
    }
}

/// The greatest depth among the values of `members`; 0 if there are none.
pub open spec fn max_member_depth(members: Members) -> nat
    decreases members, 0nat,
{
    if members.len() == 0 {
        0
    } else {
        let first = max_member_depth(members.drop_last());
        let last = members.last().1.depth();
        if first >= last { first } else { last }
    }
}

impl ValueView {
    /// How deeply arrays and objects are nested in the value: 0 for a scalar,
    /// and for an array or an object one more than the deepest of its parts.
    pub open spec fn depth(self) -> nat
        decreases self, 1nat,
    {
        match self {
            ValueView::Array(items) => 1 + max_depth(items),
            ValueView::Object(members) => 1 + max_member_depth(members),
            _ => 0,
        }
    }

    /// Whether two values are the same: scalars that are equal, arrays with
    /// the same elements in the same order, objects with the same members
    /// in whatever order.
    pub open spec fn same_as(self, other: ValueView) -> bool
        decreases self,
    {
        match self {
            ValueView::Array(items) => {
                &&& other is Array
                &&& other->Array_0.len() == items.len()
                &&& forall|i: int|
                    0 <= i < items.len() ==> (#[trigger] items[i]).same_as(other->Array_0[i])
            },
            ValueView::Object(members) => other is Object && same_members(
                members,
                other->Object_0,
            ),
            _ => self == other,
        }
    }

    /// In every object of the value, no key stands twice.
    pub open spec fn well_formed(self) -> bool
        decreases self,
    {
        match self {
            ValueView::Array(items) => forall|i: int|
                0 <= i < items.len() ==> (#[trigger] items[i]).well_formed(),
            ValueView::Object(members) => distinct_keys(members) && forall|i: int|
                0 <= i < members.len() ==> (#[trigger] members[i]).1.well_formed(),
            _ => true,
        }
    }
}

/// A value of a document. Two values are equal when their views are the
/// same in the sense of [`ValueView::same_as`]: the order of the members of
/// an object does not count.
#[derive(Debug)]
pub enum Value {
    Null,
    Boolean(bool),
    String(String),
    Number(Number),
    Array(Vec<Value>),
    Object(Object),
}

/// A mapping from keys to values. Each key stands once; the members keep the
/// order in which their keys first came. Two objects are equal when they
/// have the same members, in whatever order.
#[derive(Debug)]
pub struct Object {
    entries: Vec<(String, Value)>,
}

impl View for Value {
    type V = ValueView;

    open spec fn view(&self) -> ValueView
        decreases self,
    {
        match self {
            Value::Null => ValueView::Null,
            Value::Boolean(b) => ValueView::Boolean(*b),
            Value::String(s) => ValueView::String(s@),
            Value::Number(n) => ValueView::Number(n@),
            Value::Array(items) => ValueView::Array(
                Seq::new(
                    items.len() as nat,
                    |i: int|
                        if 0 <= i < items.len() {
                            items[i].view()
                        } else {
                            ValueView::Null
                        },
                ),
            ),
            Value::Object(object) => ValueView::Object(object.view()),
        }
    }
}

impl View for Object {
    type V = Members;

    closed spec fn view(&self) -> Members
        decreases self,
    {
        Seq::new(
            self.entries.len() as nat,
            |i: int|
                if 0 <= i < self.entries.len() {
                    (self.entries[i].0@, self.entries[i].1.view())
                } else {
                    (Seq::empty(), ValueView::Null)
                },
        )
    }
}

impl PartialEq for Value {
    fn eq(&self, other: &Self) -> (r: bool)
        decreases self,
    {
        match (self, other) {
            (Value::Null, Value::Null) => true,
            (Value::Boolean(a), Value::Boolean(b)) => *a == *b,
            (Value::String(a), Value::String(b)) => *a == *b,
            (Value::Number(a), Value::Number(b)) => *a == *b,
            (Value::Array(a), Value::Array(b)) => {
                proof {
                    Value::lemma_array_view(*a);
                    Value::lemma_array_view(*b);
                }
                if a.len() != b.len() {
                    return false;
                }
                let mut i: usize = 0;
                while i < a.len()
                    invariant
                        i <= a.len(),
                        a.len() == b.len(),
                        self@ == ValueView::Array(value_views(a@)),
                        other@ == ValueView::Array(value_views(b@)),
                        forall|k: int| 0 <= k < i ==> (#[trigger] a[k])@.same_as(b[k]@),
                        forall|k: int| 0 <= k < a.len() ==> decreases_to!(self => #[trigger] a[k]),
                    decreases a.len() - i,
                {
                    if !(a[i] == b[i]) {
                        assert(value_views(a@)[i as int] == a[i as int]@);
                        assert(value_views(b@)[i as int] == b[i as int]@);
                        return false;
                    }
                    i += 1;
                }
                assert forall|k: int| 0 <= k < a.len() implies (#[trigger] value_views(
                    a@,
                )[k]).same_as(value_views(b@)[k]) by {
                    assert(a[k]@.same_as(b[k]@));
                }
                true
            },
            (Value::Object(a), Value::Object(b)) => *a == *b,
            _ => false,
        }
    }
}

impl vstd::std_specs::cmp::PartialEqSpecImpl for Value {
    open spec fn obeys_eq_spec() -> bool {
        true
    }

    open spec fn eq_spec(&self, other: &Self) -> bool {
        self@.same_as(other@)
    }
}

impl PartialEq for Object {
    fn eq(&self, other: &Self) -> (r: bool)
        decreases self,
    {
        if self.entries.len() != other.entries.len() {
            return false;
        }
        let mut i: usize = 0;
        while i < self.entries.len()
            invariant
                i <= self.entries.len(),
                self.entries.len() == self@.len(),
                other.entries.len() == other@.len(),
                self@.len() == other@.len(),
                forall|k: int|
                    0 <= k < i ==> has_key(other@, (#[trigger] self@[k]).0) && self@[k].1.same_as(
                        other@[key_index(other@, self@[k].0)].1,
                    ),
            decreases self.entries.len() - i,
        {
            let j = other.position(&self.entries[i].0);
            if j >= other.entries.len() {
                assert(!has_key(other@, self@[i as int].0));
                return false;
            }
            if !(self.entries[i].1 == other.entries[j].1) {
                assert(!self@[i as int].1.same_as(other@[key_index(other@, self@[i as int].0)].1));
                return false;
            }
            i += 1;
        }
        true
    }
}

impl vstd::std_specs::cmp::PartialEqSpecImpl for Object {
    open spec fn obeys_eq_spec() -> bool {
        true
    }

    open spec fn eq_spec(&self, other: &Self) -> bool {
        same_members(self@, other@)
    }
}

/// `depth` as a machine number holds it: itself, or the greatest machine
/// number where it is greater.
pub open spec fn saturated(depth: nat) -> nat {
    if depth <= usize::MAX {
        depth
    } else {
        usize::MAX as nat
    }
}

/// The values of a run of values.
pub open spec fn value_views(items: Seq<Value>) -> Seq<ValueView> {
    items.map_values(|v: Value| v@)
}

impl Value {
    /// A string value that holds the characters of `input`.
    pub fn string(input: &str) -> (r: Value)
        ensures
            r@ == ValueView::String(input@),
    {
        Value::String(String::from_str(input))
    }

    /// How deeply arrays and objects are nested in the value; the greatest
    /// machine number if the depth is beyond it.
    pub fn depth(&self) -> (r: usize)
        ensures
            r == saturated(self@.depth()),
        decreases self,
    {
        match self {
            Value::Array(items) => {
                let ghost views = value_views(items@);
                proof {
                    Value::lemma_array_view(*items);
                }
                let mut deepest: usize = 0;
                let mut i: usize = 0;
                assert(views.take(0) =~= Seq::<ValueView>::empty());
                while i < items.len()
                    invariant
                        i <= items.len(),
                        views == value_views(items@),
                        deepest == saturated(max_depth(views.take(i as int))),
                        forall|k: int|
                            0 <= k < items.len() ==> decreases_to!(self => #[trigger] items[k]),
                    decreases items.len() - i,
                {
                    let inner = items[i].depth();
                    assert(views.take(i + 1).drop_last() =~= views.take(i as int));
                    assert(views.take(i + 1).last() == items[i as int]@);
                    if inner > deepest {
                        deepest = inner;
                    }
                    i += 1;
                }
                assert(views.take(items.len() as int) =~= views);
                if deepest == usize::MAX {
                    deepest
                } else {
                    deepest + 1
                }
            },
            Value::Object(object) => {
                let deepest = object.deepest();
                if deepest == usize::MAX {
                    deepest
                } else {
                    deepest + 1
                }
            },
            _ => 0,
        }
    }

    /// The view of an array is the views of its items.
    pub proof fn lemma_array_view(items: Vec<Value>)
        ensures
            Value::Array(items)@ == ValueView::Array(value_views(items@)),
    {
        assert(Value::Array(items)@->Array_0 =~= value_views(items@));
    }
}

impl Object {
    #[verifier::type_invariant]
    spec fn keys_once(&self) -> bool {
        distinct_keys(self@)
    }

    /// The greatest depth among the values of the members; 0 if there are
    /// none, the greatest machine number if the depth is beyond it.
    pub fn deepest(&self) -> (r: usize)
        ensures
            r == saturated(max_member_depth(self@)),
        decreases self,
    {
        let mut deepest: usize = 0;
        let mut i: usize = 0;
        assert(self@.take(0) =~= Seq::<(Seq<char>, ValueView)>::empty());
        while i < self.entries.len()
            invariant
                i <= self.entries.len(),
                self.entries.len() == self@.len(),
                deepest == saturated(max_member_depth(self@.take(i as int))),
            decreases self.entries.len() - i,
        {
            let inner = self.entries[i].1.depth();
            assert(self@.take(i + 1).drop_last() =~= self@.take(i as int));
            assert(self@.take(i + 1).last().1 == self.entries[i as int].1@);
            if inner > deepest {
                deepest = inner;
            }
            i += 1;
        }
        assert(self@.take(self.entries.len() as int) =~= self@);
        deepest
    }

    /// The object without members.
    pub fn new() -> (r: Object)
        ensures
            r@ == Seq::<(Seq<char>, ValueView)>::empty(),
    {
        let r = Object { entries: Vec::new() };
        assert(r@ =~= Seq::<(Seq<char>, ValueView)>::empty());
        r
    }

    /// The number of members.
    pub fn len(&self) -> (r: usize)
        ensures
            r == self@.len(),
    {
        self.entries.len()
    }

    /// Whether the object has no member.
    pub fn is_empty(&self) -> (r: bool)
        ensures
            r == (self@.len() == 0),
    {
        self.entries.len() == 0
    }

    /// The member at position `i`.
    pub fn entry(&self, i: usize) -> (r: (&str, &Value))
        requires
            i < self@.len(),
        ensures
            r.0@ == self@[i as int].0,
            r.1@ == self@[i as int].1,
    {
        let pair = &self.entries[i];
        (pair.0.as_str(), &pair.1)
    }

    /// The position of `key`, or the number of members if it is no key of the object.
    fn position(&self, key: &String) -> (r: usize)
        ensures
            r == key_index(self@, key@),
            r <= self@.len(),
            r <= self.entries.len(),
            self.entries.len() == self@.len(),
    {
        let mut i: usize = 0;
        while i < self.entries.len()
            invariant
                i <= self.entries.len(),
                self.entries.len() == self@.len(),
                key_index(self@, key@) == find_key(self@, key@, i as int),
            decreases self.entries.len() - i,
        {
            if self.entries[i].0 == *key {
                return i;
            }
            i += 1;
        }
        i
    }

    /// The value of `key`, if the object has that key.
    pub fn get(&self, key: &str) -> (r: Option<&Value>)
        ensures
            match r {
                Some(v) => lookup(self@, key@) == Some(v@),
                None => lookup(self@, key@) is None,
            },
    {
        let i = self.position(&String::from_str(key));
        if i < self.entries.len() {
            Some(&self.entries[i].1)
        } else {
            None
        }
    }

    /// Whether the object has the key `key`.
    pub fn contains_key(&self, key: &str) -> (r: bool)
        ensures
            r == has_key(self@, key@),
    {
        self.position(&String::from_str(key)) < self.entries.len()
    }

    /// Gives `key` the value `value`. A later value for a key replaces the
    /// earlier one.
    pub fn insert(&mut self, key: String, value: Value)
        ensures
            final(self)@ == put(old(self)@, key@, value@),
    {
        proof {
            use_type_invariant(&*self);
            lemma_put_distinct(self@, key@, value@);
        }
        let i = self.position(&key);
        let mut taken = Object { entries: Vec::new() };
        assert(taken@ =~= Seq::<(Seq<char>, ValueView)>::empty());
        std::mem::swap(self, &mut taken);
        let Object { entries } = taken;
        let mut entries = entries;
        if i < entries.len() {
            entries.set(i, (key, value));
        } else {
            entries.push((key, value));
        }
        let ghost after = Object { entries };
        assert(after@ =~= put(old(self)@, key@, value@));
        *self = Object { entries };
    }

    /// No key stands twice in an object.
    pub fn keys_are_distinct(&self)
        ensures
            distinct_keys(self@),
    {
        proof {
            use_type_invariant(self);
        }
    }
}

/// A key is found at a position that holds it, and at no position before.
pub proof fn lemma_find_key(members: Members, key: Seq<char>, from: int)
    requires
        0 <= from <= members.len(),
    ensures
        from <= find_key(members, key, from) <= members.len(),
        find_key(members, key, from) < members.len() ==> members[find_key(members, key, from)].0
            == key,
        forall|i: int|
            from <= i < find_key(members, key, from) ==> (#[trigger] members[i]).0 != key,
    decreases members.len() - from,
{
    if from < members.len() && members[from].0 != key {
        lemma_find_key(members, key, from + 1);
    }
}

/// Giving a key a value keeps every key once.
pub proof fn lemma_put_distinct(members: Members, key: Seq<char>, value: ValueView)
    requires
        distinct_keys(members),
    ensures
        distinct_keys(put(members, key, value)),
{
    lemma_find_key(members, key, 0);
}

/// Where `key` stands is settled by what is true of the place: it holds
/// `key`, and no place before it does.
pub proof fn lemma_key_index_is(members: Members, key: Seq<char>, at: int)
    requires
        0 <= at <= members.len(),
        at < members.len() ==> members[at].0 == key,
        forall|i: int| 0 <= i < at ==> (#[trigger] members[i]).0 != key,
    ensures
        key_index(members, key) == at,
{
    lemma_find_key(members, key, 0);
    let found = key_index(members, key);
    if found < at {
        assert(members[found].0 != key);
    }
}

/// Last write wins: after `key` was given `value`, `key` has that value and
/// every other key has the value it had; as mappings, the members afterwards
/// are the members before with `key` mapped to `value`.
pub proof fn lemma_put_as_map(members: Members, key: Seq<char>, value: ValueView)
    ensures
        lookup(put(members, key, value), key) == Some(value),
        forall|other: Seq<char>|
            other != key ==> lookup(#[trigger] put(members, key, value), other) == lookup(
                members,
                other,
            ),
        as_map(put(members, key, value)) == as_map(members).insert(key, value),
{
    let after = put(members, key, value);
    lemma_find_key(members, key, 0);
    let at = key_index(members, key);
    assert forall|i: int| 0 <= i < at implies (#[trigger] after[i]).0 != key by {
        assert(members[i].0 != key);
    }
    lemma_key_index_is(after, key, at);
    assert forall|other: Seq<char>| other != key implies lookup(after, other) == lookup(
        members,
        other,
    ) by {
        lemma_find_key(members, other, 0);
        let there = key_index(members, other);
        if there < members.len() {
            assert forall|i: int| 0 <= i < there implies (#[trigger] after[i]).0 != other by {
                if i != at {
                    assert(members[i].0 != other);
                }
            }
            lemma_key_index_is(after, other, there);
        } else {
            assert forall|i: int| 0 <= i < after.len() implies (#[trigger] after[i]).0 != other by {
                if i < members.len() && i != at {
                    assert(members[i].0 != other);
                }
            }
            lemma_key_index_is(after, other, after.len() as int);
        }
    }
    assert(as_map(after) =~= as_map(members).insert(key, value)) by {
        let before = as_map(members).insert(key, value);
        assert forall|k: Seq<char>| #[trigger]
            as_map(after).dom().contains(k) <==> before.dom().contains(k) by {
            if k != key {
                assert(lookup(after, k) == lookup(members, k));
            }
        }
        assert forall|k: Seq<char>| #[trigger]
            as_map(after).dom().contains(k) implies as_map(after)[k] == before[k] by {
            if k != key {
                assert(lookup(after, k) == lookup(members, k));
            } else {
                assert(lookup(after, key) == Some(value));
            }
        }
    }
}

} // verus!
