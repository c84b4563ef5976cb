//! Lookups into a value: the soft ones answer `None` where there is
//! nothing to find, the indexing ones demand that there is.

use crate::value::Value;
use vstd::pervasive::unreached;
use vstd::prelude::*;

verus! {

/// One step of a lookup: into an object by key, or into an array by position.
pub enum Step {
    Key(Seq<char>),
    Position(int),
}

impl Value {
    /// The element of an array at a position; `None` for a position
    /// outside the array and for any value that is no array.
    pub open spec fn item(self, i: int) -> Option<Value> {
        match self {
            Value::Array(items) => if 0 <= i < items@.len() {
                Some(items@[i])
            } else {
                None
            },
            _ => None,
        }
    }

    /// The member of an object under a key; `None` for a key that the
    /// object lacks and for any value that is no object.
    pub open spec fn member(self, key: Seq<char>) -> Option<Value> {
        match self {
            Value::Object(members) => if members@.contains_key(key) {
                Some(members@[key])
            } else {
                None
            },
            _ => None,
        }
    }

    /// What one step of a lookup finds in this value.
    pub open spec fn step(self, s: Step) -> Option<Value> {
        match s {
            Step::Key(key) => self.member(key),
            Step::Position(i) => self.item(i),
        }
    }

    /// The element of an array at position `i`, if there is one.
    pub fn get_arr(&self, i: usize) -> (r: Option<&Value>)
        ensures
            match r {
                Some(v) => self.item(i as int) == Some(*v),
                None => self.item(i as int) is None,
            },
    {
        match self {
            Value::Array(items) => if i < items.len() {
                Some(&items[i])
            } else {
                None
            },
            _ => None,
        }
    }

    /// The member of an object under `key`, if there is one.
    pub fn get_map(&self, key: &str) -> (r: Option<&Value>)
        ensures
            match r {
                Some(v) => self.member(key@) == Some(*v),
                None => self.member(key@) is None,
            },
    {
        match self {
            Value::Object(members) => members.get(key),
            _ => None,
        }
    }
}

/// What a soft lookup by position finds, starting from what an earlier
/// lookup found.
pub open spec fn soft_item(found: Option<Value>, i: int) -> Option<Value> {
    match found {
        Some(v) => v.item(i),
        None => None,
    }
}

/// What a soft lookup by key finds, starting from what an earlier lookup
/// found.
pub open spec fn soft_member(found: Option<Value>, key: Seq<char>) -> Option<Value> {
    match found {
        Some(v) => v.member(key),
        None => None,
    }
}

/// What a chain of soft lookups finds, taking the steps from first to last.
pub open spec fn follow(found: Option<Value>, path: Seq<Step>) -> Option<Value>
    decreases path.len(),
{
    if path.len() == 0 {
        found
    } else {
        match follow(found, path.drop_last()) {
            Some(v) => v.step(path.last()),
            None => None,
        }
    }
}

/// Soft lookups on what an earlier lookup found, so that lookups chain.
pub trait OptionValueExt {
    /// The element at position `i` of what was found, if that is an array
    /// with such an element.
    fn get_arr(&self, i: usize) -> Option<&Value>;

    /// The member under `key` of what was found, if that is an object with
    /// such a member.
    fn get_map(&self, key: &str) -> Option<&Value>;
}

impl OptionValueExt for Option<&Value> {
    fn get_arr(&self, i: usize) -> (r: Option<&Value>)
        ensures
            match r {
                Some(v) => soft_item(option_value(*self), i as int) == Some(*v),
                None => soft_item(option_value(*self), i as int) is None,
            },
    {
        match self {
            Some(val) => val.get_arr(i),
            _ => None,
        }
    }

    fn get_map(&self, key: &str) -> (r: Option<&Value>)
        ensures
            match r {
                Some(v) => soft_member(option_value(*self), key@) == Some(*v),
                None => soft_member(option_value(*self), key@) is None,
            },
    {
        match self {
            Some(val) => val.get_map(key),
            _ => None,
        }
    }
}

/// The value that an optional reference points to.
pub open spec fn option_value(found: Option<&Value>) -> Option<Value> {
    match found {
        Some(v) => Some(*v),
        None => None,
    }
}

/// A chain of soft lookups that starts from nothing finds nothing,
/// whatever its steps.
pub proof fn lemma_follow_none(path: Seq<Step>)
    ensures
        follow(None, path) is None,
    decreases path.len(),
{
    if path.len() > 0 {
        lemma_follow_none(path.drop_last());
    }
}

/// Once a lookup by key has found nothing, because the value is no object
/// or lacks the key, every chain of soft lookups that continues from there
/// finds nothing.
pub proof fn lemma_missing_member_chain(v: Value, key: Seq<char>, path: Seq<Step>)
    requires
        !(v is Object) || !v->Object_0@.contains_key(key),
    ensures
        follow(soft_member(Some(v), key), path) is None,
{
    lemma_follow_none(path);
}

/// A soft lookup by key on what a chain found is the chain with one
/// more step.
pub proof fn lemma_follow_key(found: Option<Value>, path: Seq<Step>, key: Seq<char>)
    ensures
        soft_member(follow(found, path), key) == follow(found, path.push(Step::Key(key))),
{
    assert(path.push(Step::Key(key)).drop_last() =~= path);
}

/// A soft lookup by position on what a chain found is the chain with
/// one more step.
pub proof fn lemma_follow_position(found: Option<Value>, path: Seq<Step>, i: int)
    ensures
        soft_item(follow(found, path), i) == follow(found, path.push(Step::Position(i))),
{
    assert(path.push(Step::Position(i)).drop_last() =~= path);
}

impl core::ops::Index<usize> for Value {
    type Output = Value;

    /// The element of an array at a position inside it. A value that is no
    /// array, and a position outside the array, are not admitted.
    fn index(&self, index: usize) -> (r: &Value)
        ensures
            self.item(index as int) == Some(*r),
    {
        match self {
            Value::Array(items) => &items[index],
            _ => unreached(),
        }
    }
}

impl vstd::std_specs::core::IndexSpecImpl<usize> for Value {
    /// Indexing by position asks for an array with an element there.
    open spec fn index_req(&self, index: &usize) -> bool {
        self.item(*index as int) is Some
    }
}

impl core::ops::Index<&str> for Value {
    type Output = Value;

    /// The member of an object under a key that it holds. A value that is
    /// no object, and a key that the object lacks, are not admitted.
    fn index(&self, index: &str) -> (r: &Value)
        ensures
            self.member(index@) == Some(*r),
    {
        match self.get_map(index) {
            Some(v) => v,
            None => unreached(),
        }
    }
}

impl vstd::std_specs::core::IndexSpecImpl<&str> for Value {
    /// Indexing by key asks for an object with a member under the key.
    open spec fn index_req(&self, index: &&str) -> bool {
        self.member(index@) is Some
    }
}

} // verus!
