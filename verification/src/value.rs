//! The value tree that parsing builds.

use vstd::prelude::*;
use vstd::set_lib::lemma_subset_equality;
use vstd::std_specs::cmp::PartialEqSpecImpl;
use crate::grammar::Json;

verus! {

/// A parsed value. A number is kept as the text of its literal. Two values
/// are equal with `==` where they denote the same tree: the order of an
/// object's members does not count.
#[derive(Debug)]
pub enum Value {
    Object(Object),
    Array(Vec<Value>),
    String(String),
    Number(String),
    Bool(bool),
    Null,
}

/// The members of an object: values under keys, no key twice.
#[derive(Debug)]
pub struct Object {
    entries: Vec<(String, Value)>,
}

/// The values that `items` denote, one for one.
pub open spec fn array_view(items: Seq<Value>) -> Seq<Json>
    decreases items, 0int,
{
    Seq::new(
        items.len(),
        |i: int|
            if 0 <= i < items.len() {
                items[i]@
            } else {
                Json::Null
            },
    )
}

/// The map that `entries` denote: each key with the value of its last entry.
pub open spec fn members_view(entries: Seq<(String, Value)>) -> Map<Seq<char>, Json>
    decreases entries, entries.len(),
{
    if entries.len() == 0 {
        Map::empty()
    } else {
        members_view(entries.drop_last()).insert(entries.last().0@, entries.last().1@)
    }
}

/// The keys of `entries`, in order.
pub open spec fn keys(entries: Seq<(String, Value)>) -> Seq<Seq<char>> {
    Seq::new(entries.len(), |i: int| entries[i].0@)
}

impl View for Value {
    type V = Json;

    open spec fn view(&self) -> Json
        decreases self,
    {
        match self {
            Value::Object(object) => Json::Object(object@),
            Value::Array(items) => Json::Array(array_view(items@)),
            Value::String(text) => Json::String(text@),
            Value::Number(text) => Json::Number(text@),
            Value::Bool(b) => Json::Bool(*b),
            Value::Null => Json::Null,
        }
    }
}

impl View for Object {
    type V = Map<Seq<char>, Json>;

    closed spec fn view(&self) -> Map<Seq<char>, Json>
        decreases self,
    {
        members_view(self.entries@)
    }
}

/// One more item at the end is one more value at the end.
pub proof fn lemma_array_view_push(items: Seq<Value>, item: Value)
    ensures
        array_view(items.push(item)) == array_view(items).push(item@),
{
    assert(array_view(items.push(item)) =~= array_view(items).push(item@));
}

/// The map holds exactly the keys of the entries.
proof fn lemma_members_keys(entries: Seq<(String, Value)>)
    ensures
        forall|k: Seq<char>| #[trigger]
            members_view(entries).contains_key(k) <==> keys(entries).contains(k),
        members_view(entries).dom().finite(),
    decreases entries.len(),
{
    if entries.len() > 0 {
        let front = entries.drop_last();
        lemma_members_keys(front);
        assert(members_view(entries) == members_view(front).insert(
            entries.last().0@,
            entries.last().1@,
        ));
        assert forall|k: Seq<char>| #[trigger]
            members_view(entries).contains_key(k) <==> keys(entries).contains(k) by {
            if keys(entries).contains(k) {
                let i = choose|i: int| 0 <= i < keys(entries).len() && keys(entries)[i] == k;
                if i < front.len() {
                    assert(keys(front)[i] == k);
                }
            }
            if keys(front).contains(k) {
                let i = choose|i: int| 0 <= i < keys(front).len() && keys(front)[i] == k;
                assert(keys(entries)[i] == k);
            }
            if k == entries.last().0@ {
                assert(keys(entries)[entries.len() - 1] == k);
            }
        }
    }
}

/// Where no key occurs twice, each entry's value is the one under its key,
/// and there are as many members as entries.
proof fn lemma_members_distinct(entries: Seq<(String, Value)>)
    requires
        keys(entries).no_duplicates(),
    ensures
        forall|i: int|
            0 <= i < entries.len() ==> members_view(entries)[#[trigger] entries[i].0@]
                == entries[i].1@,
        members_view(entries).dom().len() == entries.len(),
    decreases entries.len(),
{
    if entries.len() > 0 {
        let front = entries.drop_last();
        let last = entries.len() - 1;
        assert forall|i: int, j: int|
            0 <= i < front.len() && 0 <= j < front.len() && i != j implies keys(front)[i] != keys(
            front,
        )[j] by {
            assert(keys(entries)[i] != keys(entries)[j]);
        }
        lemma_members_distinct(front);
        lemma_members_keys(front);
        assert(members_view(entries) == members_view(front).insert(
            entries.last().0@,
            entries.last().1@,
        ));
        assert(!keys(front).contains(entries.last().0@)) by {
            if keys(front).contains(entries.last().0@) {
                let i = choose|i: int|
                    0 <= i < keys(front).len() && keys(front)[i] == entries.last().0@;
                assert(keys(entries)[i] == keys(entries)[last]);
            }
        }
        assert forall|i: int| 0 <= i < entries.len() implies members_view(
            entries,
        )[#[trigger] entries[i].0@] == entries[i].1@ by {
            if i < last {
                assert(keys(entries)[i] != keys(entries)[last]);
                assert(front[i] == entries[i]);
            }
        }
    }
}

/// Replacing the value of entry `i` puts the new value under its key.
proof fn lemma_members_replace(entries: Seq<(String, Value)>, i: int, entry: (String, Value))
    requires
        keys(entries).no_duplicates(),
        0 <= i < entries.len(),
        entry.0@ == entries[i].0@,
    ensures
        keys(entries.update(i, entry)) == keys(entries),
        members_view(entries.update(i, entry)) == members_view(entries).insert(
            entry.0@,
            entry.1@,
        ),
    decreases entries.len(),
{
    let updated = entries.update(i, entry);
    assert(keys(updated) =~= keys(entries));
    let last = entries.len() - 1;
    let front = entries.drop_last();
    assert(members_view(entries) == members_view(front).insert(
        entries.last().0@,
        entries.last().1@,
    ));
    assert(members_view(updated) == members_view(updated.drop_last()).insert(
        updated.last().0@,
        updated.last().1@,
    ));
    if i == last {
        assert(updated.drop_last() == front);
        assert(members_view(updated) =~= members_view(entries).insert(entry.0@, entry.1@));
    } else {
        assert forall|a: int, b: int|
            0 <= a < front.len() && 0 <= b < front.len() && a != b implies keys(front)[a] != keys(
            front,
        )[b] by {
            assert(keys(entries)[a] != keys(entries)[b]);
        }
        lemma_members_replace(front, i, entry);
        assert(updated.drop_last() == front.update(i, entry));
        assert(keys(entries)[i] != keys(entries)[last]);
        assert(members_view(updated) =~= members_view(entries).insert(entry.0@, entry.1@));
    }
}

impl Object {
    #[verifier::type_invariant]
    pub closed spec fn well_formed(self) -> bool {
        keys(self.entries@).no_duplicates()
    }

    /// An object without members.
    pub fn new() -> (object: Object)
        ensures
            object@ == Map::<Seq<char>, Json>::empty(),
    {
        Object { entries: Vec::new() }
    }

    /// The number of members.
    pub fn len(&self) -> (n: usize)
        ensures
            n == self@.len(),
            self@.dom().finite(),
    {
        proof {
            use_type_invariant(self);
            lemma_members_distinct(self.entries@);
            lemma_members_keys(self.entries@);
        }
        self.entries.len()
    }

    /// Whether the object has no members.
    pub fn is_empty(&self) -> (empty: bool)
        ensures
            empty == (self@ == Map::<Seq<char>, Json>::empty()),
    {
        proof {
            use_type_invariant(self);
            lemma_members_keys(self.entries@);
            if self.entries@.len() > 0 {
                assert(keys(self.entries@)[0] == self.entries@[0].0@);
                assert(self@.contains_key(self.entries@[0].0@));
            }
        }
        self.entries.len() == 0
    }

    /// The place of the entry with the key `key`, if there is one.
    fn find(&self, key: &String) -> (found: Option<usize>)
        ensures
            match found {
                Some(i) => i < self.entries@.len() && self.entries@[i as int].0@ == key@
                    && self@.contains_key(key@) && self@[key@] == self.entries@[i as int].1@,
                None => !self@.contains_key(key@),
            },
    {
        proof {
            use_type_invariant(self);
            lemma_members_distinct(self.entries@);
            lemma_members_keys(self.entries@);
        }
        let mut i: usize = 0;
        while i < self.entries.len()
            invariant
                i <= self.entries.len(),
                forall|j: int| 0 <= j < i ==> keys(self.entries@)[j] != key@,
                forall|k: Seq<char>| #[trigger]
                    self@.contains_key(k) <==> keys(self.entries@).contains(k),
                forall|j: int|
                    0 <= j < self.entries@.len() ==> self@[#[trigger] self.entries@[j].0@]
                        == self.entries@[j].1@,
            decreases self.entries.len() - i,
        {
            if self.entries[i].0 == *key {
                proof {
                    assert(keys(self.entries@)[i as int] == key@);
                }
                return Some(i);
            }
            i = i + 1;
        }
        None
    }

    /// The value under `key`, if the object has that key.
    pub fn get(&self, key: &str) -> (found: Option<&Value>)
        ensures
            match found {
                Some(value) => self@.contains_key(key@) && value@ == self@[key@],
                None => !self@.contains_key(key@),
            },
    {
        let wanted = key.to_owned();
        match self.find(&wanted) {
            Some(i) => Some(&self.entries[i].1),
            None => None,
        }
    }

    /// Puts `value` under `key`, in place of the value that was there, if any.
    pub fn insert(&mut self, key: String, value: Value)
        ensures
            final(self)@ == old(self)@.insert(key@, value@),
    {
        proof {
            use_type_invariant(&*self);
            lemma_members_keys(self.entries@);
        }
        let found = self.find(&key);
        let mut entries: Vec<(String, Value)> = Vec::new();
        std::mem::swap(&mut self.entries, &mut entries);
        match found {
            Some(i) => {
                proof {
                    lemma_members_replace(entries@, i as int, (key, value));
                }
                entries.set(i, (key, value));
            },
            None => {
                proof {
                    let pushed = entries@.push((key, value));
                    assert(pushed.drop_last() == entries@);
                    assert(keys(pushed) =~= keys(entries@).push(key@));
                    assert(members_view(pushed) == members_view(pushed.drop_last()).insert(
                        pushed.last().0@,
                        pushed.last().1@,
                    ));
                }
                entries.push((key, value));
            },
        }
        self.entries = entries;
    }
}

impl Value {
    /// Whether the two values denote the same tree.
    pub fn same(&self, other: &Value) -> (equal: bool)
        ensures
            equal == (self@ == other@),
        decreases self,
    {
        match (self, other) {
            (Value::Object(a), Value::Object(b)) => a.same(b),
            (Value::Array(a), Value::Array(b)) => {
                if a.len() != b.len() {
                    proof {
                        assert(array_view(a@).len() != array_view(b@).len());
                    }
                    return false;
                }
                let mut i: usize = 0;
                while i < a.len()
                    invariant
                        i <= a.len(),
                        a.len() == b.len(),
                        *self == Value::Array(*a),
                        *other == Value::Array(*b),
                        forall|j: int| 0 <= j < i ==> a@[j]@ == b@[j]@,
                    decreases a.len() - i,
                {
                    proof {
                        assert(self->Array_0 == *a);
                        assert(decreases_to!(*self => self->Array_0));
                        assert(decreases_to!(*a => a@));
                        assert(decreases_to!(a@ => a@[i as int]));
                    }
                    if !a[i].same(&b[i]) {
                        proof {
                            assert(array_view(a@)[i as int] != array_view(b@)[i as int]);
                        }
                        return false;
                    }
                    i = i + 1;
                }
                proof {
                    assert(array_view(a@) =~= array_view(b@));
                }
                true
            },
            (Value::String(a), Value::String(b)) => *a == *b,
            (Value::Number(a), Value::Number(b)) => *a == *b,
            (Value::Bool(a), Value::Bool(b)) => *a == *b,
            (Value::Null, Value::Null) => true,
            _ => false,
        }
    }
}

impl Object {
    /// Whether the two objects have the same keys with the same values.
    pub fn same(&self, other: &Object) -> (equal: bool)
        ensures
            equal == (self@ == other@),
        decreases self,
    {
        proof {
            use_type_invariant(self);
            use_type_invariant(other);
            lemma_members_distinct(self.entries@);
            lemma_members_keys(self.entries@);
            lemma_members_distinct(other.entries@);
            lemma_members_keys(other.entries@);
        }
        if self.entries.len() != other.entries.len() {
            return false;
        }
        let mut i: usize = 0;
        while i < self.entries.len()
            invariant
                i <= self.entries.len(),
                forall|j: int|
                    0 <= j < i ==> other@.contains_key(#[trigger] self.entries@[j].0@)
                        && other@[self.entries@[j].0@] == self.entries@[j].1@,
                forall|k: Seq<char>| #[trigger]
                    self@.contains_key(k) <==> keys(self.entries@).contains(k),
                forall|j: int|
                    0 <= j < self.entries@.len() ==> self@[#[trigger] self.entries@[j].0@]
                        == self.entries@[j].1@,
            decreases self.entries.len() - i,
        {
            proof {
                assert(keys(self.entries@)[i as int] == self.entries@[i as int].0@);
            }
            match other.find(&self.entries[i].0) {
                None => {
                    return false;
                },
                Some(j) => {
                    if !self.entries[i].1.same(&other.entries[j].1) {
                        return false;
                    }
                },
            }
            i = i + 1;
        }
        proof {
            assert(self@.dom().subset_of(other@.dom())) by {
                assert forall|k: Seq<char>| self@.dom().contains(k) implies other@.dom().contains(
                    k,
                ) by {
                    let j = choose|j: int|
                        0 <= j < keys(self.entries@).len() && keys(self.entries@)[j] == k;
                    assert(self.entries@[j].0@ == k);
                }
            }
            lemma_subset_equality(self@.dom(), other@.dom());
            assert(self@ =~= other@) by {
                assert forall|k: Seq<char>| self@.dom().contains(k) implies self@[k] == other@[k] by {
                    let j = choose|j: int|
                        0 <= j < keys(self.entries@).len() && keys(self.entries@)[j] == k;
                    assert(self.entries@[j].0@ == k);
                }
            }
        }
        true
    }
}

impl PartialEq for Value {
    fn eq(&self, other: &Value) -> (equal: bool) {
        self.same(other)
    }
}

impl PartialEqSpecImpl for Value {
    open spec fn obeys_eq_spec() -> bool {
        true
    }

    open spec fn eq_spec(&self, other: &Value) -> bool {
        self@ == other@
    }
}

impl Eq for Value {}

impl PartialEq for Object {
    fn eq(&self, other: &Object) -> (equal: bool) {
        self.same(other)
    }
}

impl PartialEqSpecImpl for Object {
    open spec fn obeys_eq_spec() -> bool {
        true
    }

    open spec fn eq_spec(&self, other: &Object) -> bool {
        self@ == other@
    }
}

impl Eq for Object {}

} // verus!
