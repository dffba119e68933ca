//! The tree of values that a document denotes.

use vstd::prelude::*;
use crate::number::{Number, NumberView};

verus! {

/// A parsed value. An object keeps its members with pairwise distinct keys.
/// Two values are equal when they have the same content, in whatever order
/// the members of their objects stand.
#[derive(Debug)]
pub enum Value {
    Number(Number),
    String(String),
    Bool(bool),
    Null,
    Object(Vec<(String, Value)>),
    Array(Vec<Value>),
}

/// The mathematical content of a `Value`: an object is a map from keys to
/// values, an array a sequence.
pub enum JsonValue {
    Number(NumberView),
    String(Seq<char>),
    Bool(bool),
    Null,
    Object(Map<Seq<char>, JsonValue>),
    Array(Seq<JsonValue>),
}

/// The map that a list of members builds when each is inserted in turn, so
/// that of two members with one key the later one stays.
pub open spec fn collect(members: Seq<(Seq<char>, JsonValue)>) -> Map<Seq<char>, JsonValue>
    decreases members.len(),
{
    if members.len() == 0 {
        Map::empty()
    } else {
        collect(members.drop_last()).insert(members.last().0, members.last().1)
    }
}

/// The contents of a list of values.
pub open spec fn values_view(items: Seq<Value>) -> Seq<JsonValue>
    decreases items, 0nat,
{
    if items.len() == 0 {
        Seq::empty()
    } else {
        values_view(items.drop_last()).push(value_view(items.last()))
    }
}

/// The contents of a list of members.
pub open spec fn members_view(items: Seq<(String, Value)>) -> Seq<(Seq<char>, JsonValue)>
    decreases items, 0nat,
{
    if items.len() == 0 {
        Seq::empty()
    } else {
        members_view(items.drop_last()).push((items.last().0@, value_view(items.last().1)))
    }
}

/// The content of a value.
pub open spec fn value_view(v: Value) -> JsonValue
    decreases v, 1nat,
{
    match v {
        Value::Number(n) => JsonValue::Number(n@),
        Value::String(s) => JsonValue::String(s@),
        Value::Bool(b) => JsonValue::Bool(b),
        Value::Null => JsonValue::Null,
        Value::Object(items) => JsonValue::Object(collect(members_view(items@))),
        Value::Array(items) => JsonValue::Array(values_view(items@)),
    }
}

impl View for Value {
    type V = JsonValue;

    open spec fn view(&self) -> JsonValue {
        value_view(*self)
    }
}

/// No key occurs twice among the members.
pub open spec fn distinct_keys(items: Seq<(String, Value)>) -> bool {
    forall|i: int, j: int| 0 <= i < j < items.len() ==> items[i].0@ != items[j].0@
}

impl Value {
    /// Every object in the tree has pairwise distinct keys and every
    /// number's fraction holds digits.
    pub open spec fn wf(self) -> bool
        decreases self,
    {
        match self {
            Value::Number(n) => n@.wf(),
            Value::Object(items) => distinct_keys(items@) && forall|i: int|
                0 <= i < items@.len() ==> (#[trigger] items@[i]).1.wf(),
            Value::Array(items) => forall|i: int| 0 <= i < items@.len() ==> (#[trigger] items@[i]).wf(),
            _ => true,
        }
    }
}

/// The contents of a list of values, item by item.
pub proof fn lemma_values_view(items: Seq<Value>)
    ensures
        values_view(items).len() == items.len(),
        forall|i: int| 0 <= i < items.len() ==> #[trigger] values_view(items)[i] == items[i]@,
    decreases items.len(),
{
    if items.len() > 0 {
        lemma_values_view(items.drop_last());
    }
}

/// The contents of a list of members, member by member.
pub proof fn lemma_members_view(items: Seq<(String, Value)>)
    ensures
        members_view(items).len() == items.len(),
        forall|i: int|
            0 <= i < items.len() ==> #[trigger] members_view(items)[i] == (
                items[i].0@,
                items[i].1@,
            ),
    decreases items.len(),
{
    if items.len() > 0 {
        lemma_members_view(items.drop_last());
    }
}

/// What a list of members with distinct keys builds: exactly the listed
/// keys, each with its value.
pub proof fn lemma_collect_distinct(members: Seq<(Seq<char>, JsonValue)>)
    requires
        forall|i: int, j: int| 0 <= i < j < members.len() ==> members[i].0 != members[j].0,
    ensures
        forall|i: int|
            0 <= i < members.len() ==> collect(members).contains_key(#[trigger] members[i].0)
                && collect(members)[members[i].0] == members[i].1,
        forall|k: Seq<char>|
            collect(members).contains_key(k) ==> exists|i: int|
                0 <= i < members.len() && #[trigger] members[i].0 == k,
    decreases members.len(),
{
    if members.len() > 0 {
        let front = members.drop_last();
        lemma_collect_distinct(front);
        assert forall|i: int| 0 <= i < members.len() implies collect(members).contains_key(
            #[trigger] members[i].0,
        ) && collect(members)[members[i].0] == members[i].1 by {
            if i < members.len() - 1 {
                assert(front[i] == members[i]);
            }
        }
        assert forall|k: Seq<char>| collect(members).contains_key(k) implies exists|i: int|
            0 <= i < members.len() && #[trigger] members[i].0 == k by {
            if k == members.last().0 {
                assert(members[members.len() - 1].0 == k);
            } else {
                assert(collect(front).contains_key(k));
                let i = choose|i: int| 0 <= i < front.len() && #[trigger] front[i].0 == k;
                assert(front[i] == members[i]);
            }
        }
    }
}

/// An object that keeps its keys distinct holds exactly its members: each
/// key maps to the value that stands beside it, and the map has no other
/// key.
pub proof fn lemma_object_members(items: Seq<(String, Value)>)
    requires
        distinct_keys(items),
    ensures
        forall|i: int|
            0 <= i < items.len() ==> collect(members_view(items)).contains_key(
                (#[trigger] items[i]).0@,
            ) && collect(members_view(items))[items[i].0@] == items[i].1@,
        forall|k: Seq<char>|
            collect(members_view(items)).contains_key(k) ==> exists|i: int|
                0 <= i < items.len() && (#[trigger] items[i]).0@ == k,
{
    let members = members_view(items);
    lemma_members_view(items);
    assert forall|i: int, j: int| 0 <= i < j < members.len() implies members[i].0
        != members[j].0 by {
        assert(members[i].0 == items[i].0@);
        assert(members[j].0 == items[j].0@);
    }
    lemma_collect_distinct(members);
    assert forall|i: int| 0 <= i < items.len() implies collect(members).contains_key(
        (#[trigger] items[i]).0@,
    ) && collect(members)[items[i].0@] == items[i].1@ by {
        assert(members[i].0 == items[i].0@);
    }
    assert forall|k: Seq<char>| collect(members).contains_key(k) implies exists|i: int|
        0 <= i < items.len() && (#[trigger] items[i]).0@ == k by {
        let i = choose|i: int| 0 <= i < members.len() && #[trigger] members[i].0 == k;
        assert(items[i].0@ == k);
    }
}

/// Of the members with one key, the last decides what the map holds.
proof fn lemma_collect_last(members: Seq<(Seq<char>, JsonValue)>, key: Seq<char>, at: int)
    requires
        -1 <= at < members.len(),
        at >= 0 ==> members[at].0 == key,
        forall|j: int| at < j < members.len() ==> (#[trigger] members[j]).0 != key,
    ensures
        collect(members).contains_key(key) <==> at >= 0,
        at >= 0 ==> collect(members)[key] == members[at].1,
    decreases members.len(),
{
    if members.len() > 0 {
        let front = members.drop_last();
        if at < members.len() - 1 {
            assert(members[members.len() - 1].0 != key);
            assert forall|j: int| at < j < front.len() implies (#[trigger] front[j]).0 != key by {
                assert(front[j] == members[j]);
            }
            lemma_collect_last(front, key, at);
        }
    }
}

/// The keys of the map that a list of members builds are the keys of the
/// members.
proof fn lemma_collect_keys(members: Seq<(Seq<char>, JsonValue)>)
    ensures
        forall|k: Seq<char>|
            collect(members).contains_key(k) <==> exists|i: int|
                0 <= i < members.len() && (#[trigger] members[i]).0 == k,
    decreases members.len(),
{
    if members.len() > 0 {
        let front = members.drop_last();
        lemma_collect_keys(front);
        assert forall|k: Seq<char>| collect(members).contains_key(k) implies exists|i: int|
            0 <= i < members.len() && (#[trigger] members[i]).0 == k by {
            if k == members.last().0 {
                assert(members[members.len() - 1].0 == k);
            } else {
                assert(collect(front).contains_key(k));
                let i = choose|i: int| 0 <= i < front.len() && (#[trigger] front[i]).0 == k;
                assert(members[i] == front[i]);
            }
        }
        assert forall|k: Seq<char>|
            (exists|i: int| 0 <= i < members.len() && (#[trigger] members[i]).0 == k)
            implies collect(members).contains_key(k) by {
            let i = choose|i: int| 0 <= i < members.len() && (#[trigger] members[i]).0 == k;
            if i < members.len() - 1 {
                assert(front[i] == members[i]);
                assert(collect(front).contains_key(k));
            }
        }
    }
}

/// Where the last member with `key` stands among the members, if there is
/// one: that member holds what the map has under the key.
fn find(members: &Vec<(String, Value)>, key: &String) -> (r: Option<usize>)
    ensures
        match r {
            Some(at) => at < members.len() && members@[at as int].0@ == key@ && collect(
                members_view(members@),
            ).contains_key(key@) && collect(members_view(members@))[key@] == members@[at as int].1@,
            None => !collect(members_view(members@)).contains_key(key@),
        },
{
    let mut i: usize = members.len();
    while i > 0
        invariant
            i <= members.len(),
            forall|j: int| i <= j < members.len() ==> (#[trigger] members@[j]).0@ != key@,
        decreases i,
    {
        i = i - 1;
        if members[i].0 == *key {
            proof {
                lemma_members_view(members@);
                lemma_collect_last(members_view(members@), key@, i as int);
            }
            return Some(i);
        }
    }
    proof {
        lemma_members_view(members@);
        lemma_collect_last(members_view(members@), key@, -1);
    }
    None
}

impl Value {
    /// The value that an object holds under `key`; nothing for another
    /// kind of value, or where the object has no such key.
    pub fn get<'a>(&'a self, key: &String) -> (r: Option<&'a Value>)
        ensures
            match r {
                Some(found) => self@ matches JsonValue::Object(map) && map.contains_key(key@)
                    && map[key@] == found@,
                None => self@ matches JsonValue::Object(map) ==> !map.contains_key(key@),
            },
    {
        match self {
            Value::Object(members) => match find(members, key) {
                Some(at) => Some(&members[at].1),
                None => None,
            },
            _ => None,
        }
    }

    /// Whether two values have the same content: the same kind and, for
    /// numbers, the same parts; for strings, the same characters; for
    /// arrays, the same items in the same order; for objects, the same
    /// keys with the same values, in whatever order the members stand.
    pub fn same(&self, other: &Value) -> (r: bool)
        ensures
            r == (self@ == other@),
        decreases self,
    {
        match (self, other) {
            (Value::Number(a), Value::Number(b)) => a.same(b),
            (Value::String(a), Value::String(b)) => *a == *b,
            (Value::Bool(a), Value::Bool(b)) => *a == *b,
            (Value::Null, Value::Null) => true,
            (Value::Array(a), Value::Array(b)) => {
                proof {
                    lemma_values_view(a@);
                    lemma_values_view(b@);
                }
                if a.len() != b.len() {
                    return false;
                }
                let mut i: usize = 0;
                while i < a.len()
                    invariant
                        i <= a.len(),
                        a.len() == b.len(),
                        *self == Value::Array(*a),
                        *other == Value::Array(*b),
                        forall|k: int| 0 <= k < i ==> (#[trigger] a@[k])@ == b@[k]@,
                    decreases a.len() - i,
                {
                    proof {
                        lemma_values_view(a@);
                        lemma_values_view(b@);
                    }
                    proof {
                        assert(*self is Array);
                        assert(self->Array_0 == *a);
                        assert(decreases_to!(*self => self->Array_0));
                        assert(decreases_to!(*a => a[i as int]));
                    }
                    if !a[i].same(&b[i]) {
                        proof {
                            assert(values_view(a@)[i as int] != values_view(b@)[i as int]);
                        }
                        return false;
                    }
                    i = i + 1;
                }
                proof {
                    assert(values_view(a@) =~= values_view(b@));
                }
                true
            },
            (Value::Object(a), Value::Object(b)) => {
                let ghost left = collect(members_view(a@));
                let ghost right = collect(members_view(b@));
                let mut i: usize = 0;
                while i < a.len()
                    invariant
                        i <= a.len(),
                        *self == Value::Object(*a),
                        *other == Value::Object(*b),
                        left == collect(members_view(a@)),
                        right == collect(members_view(b@)),
                        forall|k: int|
                            0 <= k < i ==> left.contains_key((#[trigger] a@[k]).0@)
                                && right.contains_key(a@[k].0@) && left[a@[k].0@]
                                == right[a@[k].0@],
                    decreases a.len() - i,
                {
                    proof {
                        lemma_members_view(a@);
                        lemma_collect_keys(members_view(a@));
                        assert(members_view(a@)[i as int].0 == a@[i as int].0@);
                    }
                    let ours = match find(a, &a[i].0) {
                        Some(at) => at,
                        None => {
                            return false;
                        },
                    };
                    let theirs = match find(b, &a[i].0) {
                        Some(at) => at,
                        None => {
                            return false;
                        },
                    };
                    proof {
                        assert(*self is Object);
                        assert(self->Object_0 == *a);
                        assert(decreases_to!(*self => self->Object_0));
                        assert(decreases_to!(*a => a[ours as int]));
                        assert(decreases_to!(a[ours as int] => a[ours as int].1));
                    }
                    if !a[ours].1.same(&b[theirs].1) {
                        return false;
                    }
                    i = i + 1;
                }
                let mut j: usize = 0;
                while j < b.len()
                    invariant
                        j <= b.len(),
                        *self == Value::Object(*a),
                        *other == Value::Object(*b),
                        left == collect(members_view(a@)),
                        right == collect(members_view(b@)),
                        forall|k: int| 0 <= k < j ==> left.contains_key((#[trigger] b@[k]).0@),
                    decreases b.len() - j,
                {
                    proof {
                        lemma_members_view(b@);
                        lemma_collect_keys(members_view(b@));
                        assert(members_view(b@)[j as int].0 == b@[j as int].0@);
                    }
                    if find(a, &b[j].0).is_none() {
                        return false;
                    }
                    j = j + 1;
                }
                proof {
                    lemma_members_view(a@);
                    lemma_members_view(b@);
                    lemma_collect_keys(members_view(a@));
                    lemma_collect_keys(members_view(b@));
                    assert forall|k: Seq<char>| left.contains_key(k) implies right.contains_key(k)
                        && left[k] == right[k] by {
                        let at = choose|at: int|
                            0 <= at < a@.len() && (#[trigger] members_view(a@)[at]).0 == k;
                        assert(a@[at].0@ == k);
                    }
                    assert forall|k: Seq<char>| right.contains_key(k) implies left.contains_key(
                        k,
                    ) by {
                        let at = choose|at: int|
                            0 <= at < b@.len() && (#[trigger] members_view(b@)[at]).0 == k;
                        assert(b@[at].0@ == k);
                    }
                    assert(left =~= right);
                }
                true
            },
            _ => false,
        }
    }
}

impl PartialEq for Value {
    fn eq(&self, other: &Value) -> (r: bool) {
        self.same(other)
    }
}

impl vstd::std_specs::cmp::PartialEqSpecImpl for Value {
    open spec fn obeys_eq_spec() -> bool {
        true
    }

    open spec fn eq_spec(&self, other: &Value) -> bool {
        self@ == other@
    }
}

/// Whether every member's value is well formed.
pub open spec fn members_wf(items: Seq<(String, Value)>) -> bool {
    forall|i: int| 0 <= i < items.len() ==> (#[trigger] items[i]).1.wf()
}

/// Replacing the value of the last member with a key is an insertion into
/// the map that the members build.
proof fn lemma_collect_update(
    members: Seq<(Seq<char>, JsonValue)>,
    at: int,
    key: Seq<char>,
    value: JsonValue,
)
    requires
        0 <= at < members.len(),
        members[at].0 == key,
        forall|j: int| at < j < members.len() ==> (#[trigger] members[j]).0 != key,
    ensures
        collect(members.update(at, (key, value))) == collect(members).insert(key, value),
    decreases members.len(),
{
    let after = members.update(at, (key, value));
    let front = members.drop_last();
    if at == members.len() - 1 {
        assert(after.drop_last() =~= front);
        assert(collect(after) =~= collect(members).insert(key, value));
    } else {
        assert(members[members.len() - 1].0 != key);
        assert forall|j: int| at < j < front.len() implies (#[trigger] front[j]).0 != key by {
            assert(front[j] == members[j]);
        }
        lemma_collect_update(front, at, key, value);
        assert(after.drop_last() =~= front.update(at, (key, value)));
        assert(after.last() == members.last());
        assert(collect(after) =~= collect(members).insert(key, value));
    }
}

/// Sets `key` to `value` among the members: the last member with that key
/// gets the value, or, where there is none, a new member is added at the
/// end. Keys that were distinct stay distinct.
pub fn put(members: &mut Vec<(String, Value)>, key: String, value: Value)
    ensures
        collect(members_view(final(members)@)) == collect(members_view(old(members)@)).insert(
            key@,
            value@,
        ),
        distinct_keys(old(members)@) ==> distinct_keys(final(members)@),
        members_wf(old(members)@) && value.wf() ==> members_wf(final(members)@),
{
    let mut i: usize = members.len();
    while i > 0
        invariant
            i <= members.len(),
            *members == *old(members),
            forall|j: int| i <= j < members.len() ==> (#[trigger] members@[j]).0@ != key@,
        decreases i,
    {
        i = i - 1;
        if members[i].0 == key {
            proof {
                let before = members@;
                let after = before.update(i as int, (key, value));
                lemma_members_view(before);
                lemma_members_view(after);
                assert(members_view(after) =~= members_view(before).update(
                    i as int,
                    (key@, value@),
                ));
                lemma_collect_update(members_view(before), i as int, key@, value@);
                assert forall|a: int, b: int|
                    distinct_keys(before) && 0 <= a < b < after.len() implies after[a].0@
                    != after[b].0@ by {
                    assert(after[a].0@ == before[a].0@);
                    assert(after[b].0@ == before[b].0@);
                }
            }
            members[i] = (key, value);
            return ;
        }
    }
    proof {
        let after = members@.push((key, value));
        assert(after.drop_last() =~= members@);
        assert(members_view(after).drop_last() =~= members_view(members@));
    }
    members.push((key, value));
}

} // verus!
