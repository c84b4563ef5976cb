//! The value tree and its mathematical model.

use crate::assoc::{absent, assoc, distinct_keys, lemma_assoc_dom, lemma_assoc_index,
    lemma_assoc_len, lemma_assoc_push, lemma_assoc_update};
use vstd::prelude::*;
use vstd::string::StringExecFns;

verus! {

/// The mathematical model of a value: unbounded integers, sequences of
/// characters, and objects as maps, in which the order of members is lost.
pub enum Json {
    Null,
    Bool(bool),
    Int(int),
    /// A number that is no 32-bit integer, as the digits and dot of its literal.
    Float(Seq<char>),
    Str(Seq<char>),
    Array(Seq<Json>),
    Object(Map<Seq<char>, Json>),
}

/// The members of an object: a map from strings to values in which every
/// key occurs once. Inserting under a key that is present replaces its value.
#[derive(Debug)]
pub struct ObjectMap {
    entries: Vec<(String, Value)>,
}

/// A value of the tree that the parser builds.
#[derive(Debug)]
pub enum Value {
    Int(i32),
    /// A numeric literal that is no `i32`, kept as the text of the literal.
    Float(String),
    JsonString(String),
    Array(Vec<Value>),
    Object(ObjectMap),
    Bool(bool),
    Null,
}

/// The pairs of an entry list with their keys as sequences of characters.
pub open spec fn key_views(entries: Seq<(String, Value)>) -> Seq<(Seq<char>, Value)> {
    entries.map_values(|e: (String, Value)| (e.0@, e.1))
}

/// The models of the values of a sequence, in order.
pub open spec fn models(values: Seq<Value>) -> Seq<Json>
    decreases values,
{
    if values.len() == 0 {
        Seq::empty()
    } else {
        models(values.drop_last()).push(model(values.last()))
    }
}

/// The entries of an object with each key and value replaced by its model.
pub open spec fn member_models(entries: Seq<(String, Value)>) -> Seq<(Seq<char>, Json)>
    decreases entries,
{
    if entries.len() == 0 {
        Seq::empty()
    } else {
        member_models(entries.drop_last()).push((entries.last().0@, model(entries.last().1)))
    }
}

/// The model of a value.
pub open spec fn model(v: Value) -> Json
    decreases v,
{
    match v {
        Value::Null => Json::Null,
        Value::Bool(b) => Json::Bool(b),
        Value::Int(i) => Json::Int(i as int),
        Value::Float(text) => Json::Float(text@),
        Value::JsonString(text) => Json::Str(text@),
        Value::Array(items) => Json::Array(models(items@)),
        Value::Object(members) => Json::Object(assoc(member_models(members.entries()))),
    }
}

impl View for Value {
    type V = Json;

    /// The model of the value.
    open spec fn view(&self) -> Json {
        model(*self)
    }
}

impl View for ObjectMap {
    type V = Map<Seq<char>, Value>;

    /// The members as a map from key to value.
    open spec fn view(&self) -> Map<Seq<char>, Value> {
        assoc(key_views(self.entries()))
    }
}

/// The models of a sequence of values stand at the positions of the values.
pub proof fn lemma_models_index(values: Seq<Value>, i: int)
    requires
        0 <= i < values.len(),
    ensures
        models(values).len() == values.len(),
        models(values)[i] == model(values[i]),
    decreases values.len(),
{
    lemma_models_len(values);
    if i < values.len() - 1 {
        lemma_models_index(values.drop_last(), i);
    }
}

/// A sequence of values has as many models as values.
pub proof fn lemma_models_len(values: Seq<Value>)
    ensures
        models(values).len() == values.len(),
    decreases values.len(),
{
    if values.len() > 0 {
        lemma_models_len(values.drop_last());
    }
}

/// The models of a sequence with one more value are the models of the
/// sequence and the model of that value.
pub proof fn lemma_models_push(values: Seq<Value>, v: Value)
    ensures
        models(values.push(v)) == models(values).push(model(v)),
{
    assert(values.push(v).drop_last() =~= values);
}

/// The models of the entries stand at the positions of the entries.
pub proof fn lemma_member_models_index(entries: Seq<(String, Value)>, i: int)
    requires
        0 <= i < entries.len(),
    ensures
        member_models(entries).len() == entries.len(),
        member_models(entries)[i] == (entries[i].0@, model(entries[i].1)),
    decreases entries.len(),
{
    lemma_member_models_len(entries);
    if i < entries.len() - 1 {
        lemma_member_models_index(entries.drop_last(), i);
    }
}

/// There are as many models of entries as entries.
pub proof fn lemma_member_models_len(entries: Seq<(String, Value)>)
    ensures
        member_models(entries).len() == entries.len(),
    decreases entries.len(),
{
    if entries.len() > 0 {
        lemma_member_models_len(entries.drop_last());
    }
}

/// The deep model of an object's members is the map of its members with
/// each value replaced by its model.
pub proof fn lemma_member_models_map(entries: Seq<(String, Value)>)
    ensures
        assoc(member_models(entries)).dom() == assoc(key_views(entries)).dom(),
        forall|k: Seq<char>| #[trigger]
            assoc(key_views(entries)).contains_key(k) ==> assoc(member_models(entries))[k]
                == model(assoc(key_views(entries))[k]),
    decreases entries.len(),
{
    if entries.len() > 0 {
        let init = entries.drop_last();
        lemma_member_models_map(init);
        assert(key_views(entries).drop_last() =~= key_views(init));
        assert(member_models(entries).drop_last() =~= member_models(init));
        assert(assoc(member_models(entries)).dom() =~= assoc(key_views(entries)).dom());
    } else {
        assert(assoc(member_models(entries)).dom() =~= assoc(key_views(entries)).dom());
    }
}

impl ObjectMap {
    /// No key is stored twice.
    #[verifier::type_invariant]
    spec fn keys_occur_once(self) -> bool {
        distinct_keys(key_views(self.entries@))
    }

    /// The members in the order in which their keys were first inserted.
    pub closed spec fn entries(self) -> Seq<(String, Value)> {
        self.entries@
    }

    /// The list of members is smaller than the object, so that a
    /// definition may recur from an object into its members.
    pub proof fn lemma_entries_decrease(self)
        ensures
            decreases_to!(self => self.entries()),
    {
    }

    /// An object without members.
    pub fn new() -> (m: ObjectMap)
        ensures
            m.entries() == Seq::<(String, Value)>::empty(),
            m@ == Map::<Seq<char>, Value>::empty(),
    {
        ObjectMap { entries: Vec::new() }
    }

    /// The number of members.
    pub fn len(&self) -> (n: usize)
        ensures
            n == self.entries().len(),
            n == self@.dom().len(),
    {
        proof {
            use_type_invariant(self);
            lemma_assoc_len(key_views(self.entries@));
        }
        self.entries.len()
    }

    /// The member at a position below `len()`, in the order of first insertion.
    pub fn entry(&self, i: usize) -> (r: (&String, &Value))
        requires
            i < self.entries().len(),
        ensures
            *r.0 == self.entries()[i as int].0,
            *r.1 == self.entries()[i as int].1,
            self@.contains_key(r.0@),
            self@[r.0@] == *r.1,
            decreases_to!(*self => *r.1),
    {
        proof {
            use_type_invariant(self);
            lemma_assoc_index(key_views(self.entries@), i as int);
        }
        (&self.entries[i].0, &self.entries[i].1)
    }

    /// The position at which a key is stored, if it is present.
    fn position(&self, key: &String) -> (r: Option<usize>)
        ensures
            match r {
                Some(i) => i < self.entries@.len() && self.entries@[i as int].0@ == key@,
                None => absent(key_views(self.entries@), key@),
            },
    {
        let mut i: usize = 0;
        while i < self.entries.len()
            invariant
                i <= self.entries.len(),
                forall|j: int| 0 <= j < i ==> (#[trigger] key_views(self.entries@)[j]).0 != key@,
            decreases self.entries.len() - i,
        {
            if self.entries[i].0 == *key {
                return Some(i);
            }
            i += 1;
        }
        None
    }

    /// The value stored under a key, if the key is present.
    pub fn get(&self, key: &str) -> (r: Option<&Value>)
        ensures
            match r {
                Some(v) => self@.contains_key(key@) && self@[key@] == *v,
                None => !self@.contains_key(key@),
            },
    {
        let owned = String::from_str(key);
        proof {
            use_type_invariant(self);
            lemma_assoc_dom(key_views(self.entries@), key@);
        }
        match self.position(&owned) {
            Some(i) => {
                proof {
                    lemma_assoc_index(key_views(self.entries@), i as int);
                }
                Some(&self.entries[i].1)
            },
            None => None,
        }
    }

    /// Stores a value under a key. A value already stored under that key
    /// is replaced; the others stay as they are.
    pub fn insert(&mut self, key: String, value: Value)
        ensures
            final(self)@ == old(self)@.insert(key@, value),
            model(Value::Object(*final(self))) == Json::Object(
                model(Value::Object(*old(self)))->Object_0.insert(key@, model(value)),
            ),
            final(self).entries() == old(self).entries().push((key, value)) || exists|i: int|
                0 <= i < old(self).entries().len() && final(self).entries() == old(
                    self,
                ).entries().update(i, (key, value)),
    {
        proof {
            use_type_invariant(&*self);
        }
        let found = self.position(&key);
        let ghost before = self.entries@;
        // The list is updated outside the object, which must hold distinct
        // keys whenever it is borrowed mutably.
        let mut entries: Vec<(String, Value)> = Vec::new();
        core::mem::swap(&mut self.entries, &mut entries);
        match found {
            Some(i) => {
                proof {
                    lemma_assoc_update(key_views(before), i as int, value);
                    lemma_member_models_update(before, i as int, key, value);
                    assert(key_views(before.update(i as int, (key, value))) =~= key_views(
                        before,
                    ).update(i as int, (key@, value)));
                }
                entries[i] = (key, value);
            },
            None => {
                proof {
                    lemma_assoc_push(key_views(before), key@, value);
                    assert(key_views(before.push((key, value))) =~= key_views(before).push(
                        (key@, value),
                    ));
                    lemma_assoc_push(member_models(before), key@, model(value));
                    assert(before.push((key, value)).drop_last() =~= before);
                    assert(distinct_keys(key_views(before.push((key, value))))) by {
                        let next = key_views(before.push((key, value)));
                        assert forall|a: int, b: int| 0 <= a < b < next.len() implies (
                        #[trigger] next[a]).0 != (#[trigger] next[b]).0 by {
                            if b < before.len() {
                                assert(key_views(before)[a].0 != key_views(before)[b].0);
                            } else {
                                assert(key_views(before)[a].0 != key@);
                            }
                        }
                    }
                }
                entries.push((key, value));
            },
        }
        self.entries = entries;
    }
}

impl Clone for ObjectMap {
    /// A copy with the same keys, in the same order, under which the
    /// copies of the values stand.
    fn clone(&self) -> (r: ObjectMap)
        ensures
            member_models(r.entries()) == member_models(self.entries()),
        decreases self,
    {
        proof {
            use_type_invariant(self);
        }
        let mut entries: Vec<(String, Value)> = Vec::new();
        let mut i: usize = 0;
        while i < self.entries.len()
            invariant
                i <= self.entries.len(),
                entries@.len() == i,
                forall|j: int| 0 <= j < i ==> (#[trigger] entries@[j]).0@ == self.entries@[j].0@,
                member_models(entries@) == member_models(self.entries@.take(i as int)),
            decreases self.entries.len() - i,
        {
            let key = self.entries[i].0.clone();
            let value = self.entries[i].1.clone();
            proof {
                assert(self.entries@.take(i + 1).drop_last() =~= self.entries@.take(i as int));
                assert(entries@.push((key, value)).drop_last() =~= entries@);
            }
            entries.push((key, value));
            i += 1;
        }
        proof {
            assert(self.entries@.take(i as int) =~= self.entries@);
            assert forall|a: int, b: int| 0 <= a < b < entries@.len() implies (#[trigger] key_views(
                entries@,
            )[a]).0 != (#[trigger] key_views(entries@)[b]).0 by {
                assert(key_views(self.entries@)[a].0 != key_views(self.entries@)[b].0);
            }
        }
        ObjectMap { entries }
    }
}

impl Clone for Value {
    /// A copy with the same model.
    fn clone(&self) -> (r: Value)
        ensures
            r@ == self@,
        decreases self,
    {
        match self {
            Value::Int(i) => Value::Int(*i),
            Value::Float(text) => Value::Float(text.clone()),
            Value::JsonString(text) => Value::JsonString(text.clone()),
            Value::Bool(b) => Value::Bool(*b),
            Value::Null => Value::Null,
            Value::Array(items) => {
                let mut copies: Vec<Value> = Vec::new();
                let mut i: usize = 0;
                while i < items.len()
                    invariant
                        *self == Value::Array(*items),
                        i <= items.len(),
                        models(copies@) == models(items@.take(i as int)),
                    decreases items.len() - i,
                {
                    proof {
                        assert(decreases_to!(self->Array_0 => self->Array_0@));
                        assert(decreases_to!(self->Array_0@ => self->Array_0@[i as int]));
                    }
                    let item = items[i].clone();
                    proof {
                        assert(items@.take(i + 1).drop_last() =~= items@.take(i as int));
                        assert(copies@.push(item).drop_last() =~= copies@);
                    }
                    copies.push(item);
                    i += 1;
                }
                proof {
                    assert(items@.take(i as int) =~= items@);
                }
                Value::Array(copies)
            },
            Value::Object(members) => Value::Object(members.clone()),
        }
    }
}

/// Replacing the value at the position of a key replaces its model in the
/// deep model of the members.
proof fn lemma_member_models_update(
    entries: Seq<(String, Value)>,
    i: int,
    key: String,
    value: Value,
)
    requires
        distinct_keys(key_views(entries)),
        0 <= i < entries.len(),
        entries[i].0@ == key@,
    ensures
        assoc(member_models(entries.update(i, (key, value)))) == assoc(
            member_models(entries),
        ).insert(key@, model(value)),
{
    let deep = member_models(entries);
    let next = member_models(entries.update(i, (key, value)));
    lemma_member_models_len(entries);
    lemma_member_models_len(entries.update(i, (key, value)));
    assert(distinct_keys(deep)) by {
        assert forall|a: int, b: int| 0 <= a < b < deep.len() implies (#[trigger] deep[a]).0 != (
        #[trigger] deep[b]).0 by {
            lemma_member_models_index(entries, a);
            lemma_member_models_index(entries, b);
            assert(key_views(entries)[a].0 != key_views(entries)[b].0);
        }
    }
    lemma_member_models_index(entries, i);
    assert(next =~= deep.update(i, (deep[i].0, model(value)))) by {
        assert forall|j: int| 0 <= j < next.len() implies next[j] == deep.update(
            i,
            (deep[i].0, model(value)),
        )[j] by {
            lemma_member_models_index(entries.update(i, (key, value)), j);
            lemma_member_models_index(entries, j);
        }
    }
    lemma_assoc_update(deep, i, model(value));
}

} // verus!
