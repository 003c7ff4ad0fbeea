//! Semi-structured values: the manifest and the open part of a chunk's
//! metadata.

use vstd::prelude::*;
use crate::ieee::{
    double_is_nan, double_key, integer_key, is_nan_double, key_double, key_of_i64, key_of_u64,
};

verus! {

/// A number: an integer in the range of `u64` or `i64`, or a
/// double-precision pattern.
#[derive(Debug)]
pub enum Number {
    PosInt(u64),
    NegInt(i64),
    Float(u64),
}

/// What a [`Number`] stands for.  An integer and a floating-point number are
/// never the same number, whatever they hold.
pub enum NumberView {
    Int(int),
    /// A pattern that is no NaN, by the integer that orders it.
    Float(int),
    NaN,
}

/// A structured value.
#[derive(Debug)]
pub enum Value {
    Null,
    Bool(bool),
    Number(Number),
    String(String),
    Array(Vec<Value>),
    /// Key and value pairs.  Where a key occurs twice the last pair counts.
    Object(Vec<(String, Value)>),
}

/// What a [`Value`] stands for.
pub enum JsonValue {
    Null,
    Bool(bool),
    Number(NumberView),
    String(Seq<char>),
    Array(Seq<JsonValue>),
    Object(Map<Seq<char>, JsonValue>),
}

impl NumberView {
    /// The number as a double, by the integer that orders it: an integer
    /// goes to the double nearest to it.  `None` for a NaN.
    pub open spec fn projection(self) -> Option<int> {
        match self {
            NumberView::Int(n) => Some(integer_key(n)),
            NumberView::Float(key) => Some(key),
            NumberView::NaN => None,
        }
    }
}

impl JsonValue {
    /// The projection of a number; `None` for every other value.
    pub open spec fn numeric(self) -> Option<int> {
        match self {
            JsonValue::Number(n) => n.projection(),
            _ => None,
        }
    }
}

impl View for Number {
    type V = NumberView;

    open spec fn view(&self) -> NumberView {
        match self {
            Number::PosInt(n) => NumberView::Int(*n as int),
            Number::NegInt(n) => NumberView::Int(*n as int),
            Number::Float(bits) => if double_is_nan(*bits) {
                NumberView::NaN
            } else {
                NumberView::Float(double_key(*bits))
            },
        }
    }
}

/// The index of the last pair of `entries` whose key is `key`, or -1.
pub open spec fn last_index_of(entries: Seq<(String, Value)>, key: Seq<char>) -> int
    decreases entries.len(),
{
    if entries.len() == 0 {
        -1
    } else if entries.last().0@ == key {
        entries.len() - 1
    } else {
        last_index_of(entries.drop_last(), key)
    }
}

impl View for Value {
    type V = JsonValue;

    open spec fn view(&self) -> JsonValue
        decreases self,
    {
        match self {
            Value::Null => JsonValue::Null,
            Value::Bool(b) => JsonValue::Bool(*b),
            Value::Number(n) => JsonValue::Number(n@),
            Value::String(s) => JsonValue::String(s@),
            Value::Array(items) => JsonValue::Array(
                Seq::new(
                    items@.len(),
                    |i: int|
                        if 0 <= i < items@.len() {
                            items@[i].view()
                        } else {
                            JsonValue::Null
                        },
                ),
            ),
            Value::Object(entries) => JsonValue::Object(
                Map::new(
                    |key: Seq<char>| last_index_of(entries@, key) >= 0,
                    |key: Seq<char>|
                        {
                            let i = last_index_of(entries@, key);
                            if 0 <= i < entries@.len() {
                                entries@[i].1.view()
                            } else {
                                JsonValue::Null
                            }
                        },
                ),
            ),
        }
    }
}

/// What [`last_index_of`] finds: the last pair with the key, and no pair
/// with it further on.
pub proof fn lemma_last_index_of(entries: Seq<(String, Value)>, key: Seq<char>)
    ensures
        -1 <= last_index_of(entries, key) < entries.len(),
        last_index_of(entries, key) >= 0 ==> entries[last_index_of(entries, key)].0@ == key,
        forall|j: int|
            last_index_of(entries, key) < j < entries.len() ==> (#[trigger] entries[j]).0@ != key,
    decreases entries.len(),
{
    if entries.len() > 0 && entries.last().0@ != key {
        lemma_last_index_of(entries.drop_last(), key);
        let rest = entries.drop_last();
        assert forall|j: int| last_index_of(entries, key) < j < entries.len() implies (
        #[trigger] entries[j]).0@ != key by {
            if j < rest.len() {
                assert(rest[j] == entries[j]);
            }
        }
    }
}

/// The position of the last pair of `entries` whose key is `key`.
pub fn find_last(entries: &Vec<(String, Value)>, key: &String) -> (found: Option<usize>)
    ensures
        match found {
            Some(i) => i as int == last_index_of(entries@, key@),
            None => last_index_of(entries@, key@) == -1,
        },
{
    proof {
        lemma_last_index_of(entries@, key@);
    }
    let mut i: usize = entries.len();
    while i > 0
        invariant
            i <= entries.len(),
            last_index_of(entries@, key@) < i,
        decreases i,
    {
        i = i - 1;
        if entries[i].0 == *key {
            proof {
                lemma_last_index_of(entries@, key@);
            }
            return Some(i);
        }
        proof {
            lemma_last_index_of(entries@, key@);
        }
    }
    None
}

/// The members that a list of pairs stands for: under each key the value of
/// the last pair with that key.
pub open spec fn object_members(entries: Seq<(String, Value)>) -> Map<Seq<char>, JsonValue> {
    Map::new(
        |key: Seq<char>| last_index_of(entries, key) >= 0,
        |key: Seq<char>| entries[last_index_of(entries, key)].1@,
    )
}

/// An object stands for the members of its pairs.
pub proof fn lemma_object_view(entries: Vec<(String, Value)>)
    ensures
        Value::Object(entries)@ == JsonValue::Object(object_members(entries@)),
{
    let left = Value::Object(entries)@->Object_0;
    let right = object_members(entries@);
    assert forall|key: Seq<char>| #[trigger] left.dom().contains(key) implies left[key]
        == right[key] by {
        lemma_last_index_of(entries@, key);
    }
    assert(left =~= right);
}

/// No pairs, no members.
pub proof fn lemma_members_empty(entries: Seq<(String, Value)>)
    requires
        entries.len() == 0,
    ensures
        object_members(entries) == Map::<Seq<char>, JsonValue>::empty(),
{
    assert(object_members(entries) =~= Map::<Seq<char>, JsonValue>::empty());
}

/// A pair added at the end sets its key's member and leaves the others.
pub proof fn lemma_members_push(entries: Seq<(String, Value)>, entry: (String, Value))
    ensures
        object_members(entries.push(entry)) == object_members(entries).insert(entry.0@, entry.1@),
{
    let longer = entries.push(entry);
    let left = object_members(longer);
    let right = object_members(entries).insert(entry.0@, entry.1@);
    assert(longer.drop_last() =~= entries);
    assert(longer.last() == entry);
    assert forall|key: Seq<char>| #[trigger] left.dom().contains(key) == right.dom().contains(key) by {
        lemma_last_index_of(entries, key);
    }
    assert forall|key: Seq<char>| #[trigger] left.dom().contains(key) implies left[key]
        == right[key] by {
        lemma_last_index_of(entries, key);
        if entry.0@ != key {
            let i = last_index_of(entries, key);
            assert(longer[i] == entries[i]);
        }
    }
    assert(left =~= right);
}

/// The members depend on the pairs only through what their keys and values
/// stand for.
pub proof fn lemma_members_same_views(a: Seq<(String, Value)>, b: Seq<(String, Value)>)
    requires
        a.len() == b.len(),
        forall|i: int| 0 <= i < a.len() ==> (#[trigger] a[i]).0@ == b[i].0@ && a[i].1@ == b[i].1@,
    ensures
        object_members(a) == object_members(b),
{
    let left = object_members(a);
    let right = object_members(b);
    assert forall|key: Seq<char>| #[trigger] left.dom().contains(key) == right.dom().contains(key) by {
        lemma_last_index_of_same_keys(a, b, key);
    }
    assert forall|key: Seq<char>| #[trigger] left.dom().contains(key) implies left[key]
        == right[key] by {
        lemma_last_index_of_same_keys(a, b, key);
        lemma_last_index_of(a, key);
    }
    assert(left =~= right);
}

impl Number {
    /// Whether two numbers are the same number.
    pub fn same(&self, other: &Number) -> (r: bool)
        ensures
            r == (self@ == other@),
    {
        match (self, other) {
            (Number::PosInt(a), Number::PosInt(b)) => *a == *b,
            (Number::NegInt(a), Number::NegInt(b)) => *a == *b,
            (Number::PosInt(a), Number::NegInt(b)) => *b >= 0 && *a == *b as u64,
            (Number::NegInt(a), Number::PosInt(b)) => *a >= 0 && *a as u64 == *b,
            (Number::Float(a), Number::Float(b)) => {
                let a_nan = is_nan_double(*a);
                let b_nan = is_nan_double(*b);
                if a_nan || b_nan {
                    a_nan && b_nan
                } else {
                    key_double(*a) == key_double(*b)
                }
            },
            _ => false,
        }
    }
}

impl Number {
    /// The number as a double, by the integer that orders it.
    pub fn projection(&self) -> (r: Option<i128>)
        ensures
            match r {
                Some(key) => self@.projection() == Some(key as int),
                None => self@.projection() is None,
            },
    {
        match self {
            Number::PosInt(n) => Some(key_of_u64(*n)),
            Number::NegInt(n) => Some(key_of_i64(*n)),
            Number::Float(bits) => if is_nan_double(*bits) {
                None
            } else {
                Some(key_double(*bits))
            },
        }
    }
}

impl Value {
    /// The projection of a number; `None` for every other value.
    pub fn numeric(&self) -> (r: Option<i128>)
        ensures
            match r {
                Some(key) => self@.numeric() == Some(key as int),
                None => self@.numeric() is None,
            },
    {
        match self {
            Value::Number(n) => n.projection(),
            _ => None,
        }
    }
}

impl Clone for Number {
    fn clone(&self) -> (r: Self)
        ensures
            r == *self,
    {
        match self {
            Number::PosInt(n) => Number::PosInt(*n),
            Number::NegInt(n) => Number::NegInt(*n),
            Number::Float(bits) => Number::Float(*bits),
        }
    }
}

impl Value {
    /// The member of an object under `key`; `None` where there is no such
    /// member or the value is no object.
    pub fn get(&self, key: &String) -> (found: Option<&Value>)
        ensures
            match self@ {
                JsonValue::Object(members) => match found {
                    Some(v) => members.contains_key(key@) && v@ == members[key@],
                    None => !members.contains_key(key@),
                },
                _ => found is None,
            },
    {
        match self {
            Value::Object(entries) => match find_last(entries, key) {
                Some(i) => {
                    proof {
                        lemma_last_index_of(entries@, key@);
                    }
                    Some(&entries[i].1)
                },
                None => None,
            },
            _ => None,
        }
    }
}

impl Value {
    /// Deep equality: whether the two values stand for the same thing.
    pub fn deep_eq(&self, other: &Value) -> (r: bool)
        ensures
            r == (self@ == other@),
        decreases self,
    {
        match (self, other) {
            (Value::Null, Value::Null) => true,
            (Value::Bool(a), Value::Bool(b)) => *a == *b,
            (Value::Number(a), Value::Number(b)) => a.same(b),
            (Value::String(a), Value::String(b)) => *a == *b,
            (Value::Array(a), Value::Array(b)) => {
                if a.len() != b.len() {
                    assert(self@->Array_0.len() != other@->Array_0.len());
                    return false;
                }
                let mut i: usize = 0;
                while i < a.len()
                    invariant
                        i <= a.len(),
                        a.len() == b.len(),
                        *self == Value::Array(*a),
                        *other == Value::Array(*b),
                        forall|j: int| 0 <= j < i ==> (#[trigger] a@[j])@ == b@[j]@,
                    decreases a.len() - i,
                {
                    if !a[i].deep_eq(&b[i]) {
                        assert(self@->Array_0[i as int] != other@->Array_0[i as int]);
                        return false;
                    }
                    i = i + 1;
                }
                assert(self@->Array_0 =~= other@->Array_0);
                true
            },
            (Value::Object(a), Value::Object(b)) => {
                let mut i: usize = 0;
                while i < a.len()
                    invariant
                        i <= a.len(),
                        *self == Value::Object(*a),
                        *other == Value::Object(*b),
                        forall|j: int|
                            0 <= j < i ==> {
                                let key = (#[trigger] a@[j]).0@;
                                other@->Object_0.contains_key(key) && self@->Object_0[key]
                                    == other@->Object_0[key]
                            },
                    decreases a.len() - i,
                {
                    let key = &a[i].0;
                    proof {
                        lemma_last_index_of(a@, key@);
                        lemma_last_index_of(b@, key@);
                    }
                    let mine = find_last(a, key);
                    let theirs = find_last(b, key);
                    match (mine, theirs) {
                        (Some(ia), Some(ib)) => {
                            if !a[ia].1.deep_eq(&b[ib].1) {
                                assert(self@->Object_0[key@] != other@->Object_0[key@]);
                                return false;
                            }
                        },
                        _ => {
                            assert(self@->Object_0.contains_key(key@));
                            assert(!other@->Object_0.contains_key(key@));
                            return false;
                        },
                    }
                    i = i + 1;
                }
                let mut k: usize = 0;
                while k < b.len()
                    invariant
                        k <= b.len(),
                        *self == Value::Object(*a),
                        *other == Value::Object(*b),
                        forall|j: int|
                            0 <= j < k ==> self@->Object_0.contains_key((#[trigger] b@[j]).0@),
                    decreases b.len() - k,
                {
                    let key = &b[k].0;
                    proof {
                        lemma_last_index_of(b@, key@);
                    }
                    if find_last(a, key).is_none() {
                        assert(other@->Object_0.contains_key(key@));
                        assert(!self@->Object_0.contains_key(key@));
                        return false;
                    }
                    k = k + 1;
                }
                proof {
                    let left = self@->Object_0;
                    let right = other@->Object_0;
                    assert forall|key: Seq<char>| #[trigger]
                        left.dom().contains(key) == right.dom().contains(key) by {
                        lemma_last_index_of(a@, key);
                        lemma_last_index_of(b@, key);
                        if left.dom().contains(key) {
                            assert(a@[last_index_of(a@, key)].0@ == key);
                        }
                        if right.dom().contains(key) {
                            assert(b@[last_index_of(b@, key)].0@ == key);
                        }
                    }
                    assert forall|key: Seq<char>| #[trigger]
                        left.dom().contains(key) implies left[key] == right[key] by {
                        lemma_last_index_of(a@, key);
                        assert(a@[last_index_of(a@, key)].0@ == key);
                    }
                    assert(left =~= right);
                }
                true
            },
            _ => false,
        }
    }
}

/// Two lists of pairs with the same keys at the same places find a key at
/// the same place.
pub proof fn lemma_last_index_of_same_keys(
    a: Seq<(String, Value)>,
    b: Seq<(String, Value)>,
    key: Seq<char>,
)
    requires
        a.len() == b.len(),
        forall|i: int| 0 <= i < a.len() ==> (#[trigger] a[i]).0@ == b[i].0@,
    ensures
        last_index_of(a, key) == last_index_of(b, key),
    decreases a.len(),
{
    if a.len() > 0 {
        assert(a.last().0@ == b.last().0@);
        if a.last().0@ != key {
            let a_rest = a.drop_last();
            let b_rest = b.drop_last();
            assert forall|i: int| 0 <= i < a_rest.len() implies (#[trigger] a_rest[i]).0@
                == b_rest[i].0@ by {
                assert(a_rest[i] == a[i]);
                assert(b_rest[i] == b[i]);
            }
            lemma_last_index_of_same_keys(a_rest, b_rest, key);
        }
    }
}

impl Clone for Value {
    fn clone(&self) -> (r: Self)
        ensures
            r@ == self@,
    {
        self.duplicate()
    }
}

impl Value {
    /// A deep copy.
    pub fn duplicate(&self) -> (r: Self)
        ensures
            r@ == self@,
        decreases self,
    {
        match self {
            Value::Null => Value::Null,
            Value::Bool(b) => Value::Bool(*b),
            Value::Number(n) => Value::Number(n.clone()),
            Value::String(s) => Value::String(s.clone()),
            Value::Array(items) => {
                let mut copy: Vec<Value> = Vec::new();
                let mut i: usize = 0;
                while i < items.len()
                    invariant
                        i <= items.len(),
                        copy.len() == i,
                        *self == Value::Array(*items),
                        decreases_to!(*self => *items),
                        forall|j: int| 0 <= j < i ==> (#[trigger] copy@[j])@ == items@[j]@,
                    decreases items.len() - i,
                {
                    let item = items[i].duplicate();
                    copy.push(item);
                    i = i + 1;
                }
                let r = Value::Array(copy);
                assert(r@->Array_0 =~= self@->Array_0);
                r
            },
            Value::Object(entries) => {
                let mut copy: Vec<(String, Value)> = Vec::new();
                let mut i: usize = 0;
                while i < entries.len()
                    invariant
                        i <= entries.len(),
                        copy.len() == i,
                        *self == Value::Object(*entries),
                        decreases_to!(*self => *entries),
                        forall|j: int|
                            0 <= j < i ==> (#[trigger] copy@[j]).0@ == entries@[j].0@ && copy@[j].1@
                                == entries@[j].1@,
                    decreases entries.len() - i,
                {
                    let key = entries[i].0.clone();
                    let value = entries[i].1.duplicate();
                    copy.push((key, value));
                    i = i + 1;
                }
                let r = Value::Object(copy);
                proof {
                    assert forall|key: Seq<char>|
                        last_index_of(copy@, key) == last_index_of(entries@, key) by {
                        lemma_last_index_of_same_keys(copy@, entries@, key);
                    }
                    assert forall|key: Seq<char>| #[trigger]
                        r@->Object_0.dom().contains(key) implies r@->Object_0[key]
                        == self@->Object_0[key] by {
                        lemma_last_index_of(copy@, key);
                    }
                    assert(r@->Object_0 =~= self@->Object_0);
                }
                r
            },
        }
    }
}

} // verus!
