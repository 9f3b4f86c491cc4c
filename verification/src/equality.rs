//! The laws of equality between values.
//!
//! Two values are the same ([`ValueView::same_as`]) when they differ at
//! most in the order in which their objects hold their members. This module
//! proves that being the same is an equivalence among values in which no
//! object has a key twice.

use vstd::prelude::*;
use vstd::seq_lib::seq_to_set_is_finite;
use vstd::set_lib::lemma_subset_equality;
use crate::value::{
    distinct_keys, has_key, key_index, lemma_find_key, lemma_key_index_is, same_members, Members,
    ValueView,
};

verus! {

/// The keys of `members`, in their order.
pub open spec fn keys_of(members: Members) -> Seq<Seq<char>> {
    members.map_values(|member: (Seq<char>, ValueView)| member.0)
}

/// A key of `members` is what stands as the key of one of them.
pub proof fn lemma_has_key(members: Members, key: Seq<char>)
    ensures
        has_key(members, key) <==> keys_of(members).contains(key),
        has_key(members, key) ==> 0 <= key_index(members, key) < members.len() && members[key_index(
            members,
            key,
        )].0 == key,
{
    lemma_find_key(members, key, 0);
    let keys = keys_of(members);
    if has_key(members, key) {
        assert(keys[key_index(members, key)] == key);
    }
    if keys.contains(key) {
        let i = choose|i: int| 0 <= i < keys.len() && keys[i] == key;
        assert(members[i].0 == key);
    }
}

/// Where two runs of members have as many members, no key twice, and each
/// key of the first is a key of the second, each key of the second is a key
/// of the first.
pub proof fn lemma_same_keys(a: Members, b: Members)
    requires
        distinct_keys(a),
        distinct_keys(b),
        a.len() == b.len(),
        forall|i: int| 0 <= i < a.len() ==> has_key(b, (#[trigger] a[i]).0),
    ensures
        forall|j: int| 0 <= j < b.len() ==> has_key(a, (#[trigger] b[j]).0),
{
    broadcast use seq_to_set_is_finite;

    let ka = keys_of(a);
    let kb = keys_of(b);
    assert(ka.no_duplicates()) by {
        assert forall|i: int, j: int| 0 <= i < ka.len() && 0 <= j < ka.len() && i != j implies ka[i]
            != ka[j] by {
            assert(a[i].0 != a[j].0);
        }
    }
    assert(kb.no_duplicates()) by {
        assert forall|i: int, j: int| 0 <= i < kb.len() && 0 <= j < kb.len() && i != j implies kb[i]
            != kb[j] by {
            assert(b[i].0 != b[j].0);
        }
    }
    ka.unique_seq_to_set();
    kb.unique_seq_to_set();
    assert(ka.to_set().subset_of(kb.to_set())) by {
        assert forall|key: Seq<char>| ka.to_set().contains(key) implies kb.to_set().contains(
            key,
        ) by {
            let i = choose|i: int| 0 <= i < ka.len() && ka[i] == key;
            assert(has_key(b, a[i].0));
            lemma_has_key(b, key);
        }
    }
    lemma_subset_equality(ka.to_set(), kb.to_set());
    assert forall|j: int| 0 <= j < b.len() implies has_key(a, (#[trigger] b[j]).0) by {
        assert(kb[j] == b[j].0);
        assert(kb.to_set().contains(b[j].0));
        assert(ka.to_set().contains(b[j].0));
        lemma_has_key(a, b[j].0);
    }
}

/// A value in which no object has a key twice is the same as itself.
pub proof fn lemma_same_as_reflexive(v: ValueView)
    requires
        v.well_formed(),
    ensures
        v.same_as(v),
    decreases v,
{
    match v {
        ValueView::Array(items) => {
            assert forall|i: int| 0 <= i < items.len() implies (#[trigger] items[i]).same_as(
                items[i],
            ) by {
                lemma_same_as_reflexive(items[i]);
            }
        },
        ValueView::Object(members) => {
            assert(distinct_keys(members));
            assert forall|i: int| 0 <= i < members.len() implies has_key(
                members,
                (#[trigger] members[i]).0,
            ) && members[i].1.same_as(members[key_index(members, members[i].0)].1) by {
                assert forall|k: int| 0 <= k < i implies (#[trigger] members[k]).0
                    != members[i].0 by {}
                lemma_key_index_is(members, members[i].0, i);
                lemma_same_as_reflexive(members[i].1);
            }
            assert(same_members(members, members));
        },
        _ => {},
    }
}

/// Among values in which no object has a key twice, being the same goes
/// both ways.
pub proof fn lemma_same_as_symmetric(v: ValueView, w: ValueView)
    requires
        v.well_formed(),
        w.well_formed(),
        v.same_as(w),
    ensures
        w.same_as(v),
    decreases v,
{
    match v {
        ValueView::Array(items) => {
            let others = w->Array_0;
            assert forall|i: int| 0 <= i < others.len() implies (#[trigger] others[i]).same_as(
                items[i],
            ) by {
                assert(items[i].same_as(others[i]));
                lemma_same_as_symmetric(items[i], others[i]);
            }
        },
        ValueView::Object(a) => {
            let b = w->Object_0;
            assert(same_members(a, b));
            lemma_same_keys(a, b);
            assert forall|j: int| 0 <= j < b.len() implies has_key(a, (#[trigger] b[j]).0)
                && b[j].1.same_as(a[key_index(a, b[j].0)].1) by {
                let key = b[j].0;
                lemma_has_key(a, key);
                let i = key_index(a, key);
                assert(has_key(b, a[i].0) && a[i].1.same_as(b[key_index(b, a[i].0)].1));
                lemma_has_key(b, key);
                let back = key_index(b, key);
                if back != j {
                    assert(b[back].0 != b[j].0);
                }
                lemma_same_as_symmetric(a[i].1, b[j].1);
            }
            assert(same_members(b, a));
        },
        _ => {},
    }
}

/// What is the same as a second value, which is the same as a third, is
/// the same as the third.
pub proof fn lemma_same_as_transitive(u: ValueView, v: ValueView, w: ValueView)
    requires
        u.same_as(v),
        v.same_as(w),
    ensures
        u.same_as(w),
    decreases u,
{
    match u {
        ValueView::Array(items) => {
            let middle = v->Array_0;
            let others = w->Array_0;
            assert forall|i: int| 0 <= i < items.len() implies (#[trigger] items[i]).same_as(
                others[i],
            ) by {
                assert(items[i].same_as(middle[i]));
                assert(middle[i].same_as(others[i]));
                lemma_same_as_transitive(items[i], middle[i], others[i]);
            }
        },
        ValueView::Object(a) => {
            let b = v->Object_0;
            let c = w->Object_0;
            assert(same_members(a, b));
            assert(same_members(b, c));
            assert forall|i: int| 0 <= i < a.len() implies has_key(c, (#[trigger] a[i]).0)
                && a[i].1.same_as(c[key_index(c, a[i].0)].1) by {
                let key = a[i].0;
                lemma_has_key(b, key);
                let j = key_index(b, key);
                assert(has_key(c, b[j].0) && b[j].1.same_as(c[key_index(c, b[j].0)].1));
                lemma_same_as_transitive(a[i].1, b[j].1, c[key_index(c, key)].1);
            }
            assert(same_members(a, c));
        },
        _ => {},
    }
}

/// Two objects that are the same stand for the same keys, and give each key
/// values that are the same.
pub proof fn lemma_same_members_lookup(a: Members, b: Members, key: Seq<char>)
    requires
        distinct_keys(a),
        distinct_keys(b),
        same_members(a, b),
    ensures
        has_key(a, key) <==> has_key(b, key),
        has_key(a, key) ==> a[key_index(a, key)].1.same_as(b[key_index(b, key)].1),
{
    lemma_same_keys(a, b);
    lemma_has_key(a, key);
    lemma_has_key(b, key);
    if has_key(a, key) {
        let i = key_index(a, key);
        assert(has_key(b, a[i].0));
    }
    if has_key(b, key) {
        let j = key_index(b, key);
        assert(has_key(a, b[j].0));
    }
}

} // verus!
