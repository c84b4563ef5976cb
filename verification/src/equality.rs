//! Equality of values: two values are equal where their models are, so
//! the order in which the members of an object were inserted does not count.

use crate::assoc::{assoc, lemma_assoc_dom, lemma_assoc_finite};
use crate::value::{key_views, lemma_member_models_map, lemma_models_index, member_models, model,
    models, ObjectMap, Value};
use vstd::prelude::*;
use vstd::set_lib::lemma_subset_equality;

verus! {

/// The deep model of the members of an object.
pub open spec fn members_model(members: ObjectMap) -> Map<Seq<char>, crate::value::Json> {
    assoc(member_models(members.entries()))
}

impl PartialEq for ObjectMap {
    /// Whether the two objects hold the same keys with equal values.
    fn eq(&self, other: &ObjectMap) -> (r: bool)
        decreases self,
    {
        let ghost mine = self.entries();
        proof {
            lemma_member_models_map(mine);
            lemma_member_models_map(other.entries());
            lemma_assoc_finite(member_models(mine));
            lemma_assoc_finite(member_models(other.entries()));
        }
        let n = self.len();
        if n != other.len() {
            return false;
        }
        let mut i: usize = 0;
        while i < n
            invariant
                i <= n,
                n == mine.len(),
                mine == self.entries(),
                forall|j: int|
                    0 <= j < i ==> other@.contains_key(#[trigger] mine[j].0@) && model(
                        other@[mine[j].0@],
                    ) == model(mine[j].1) && self@.contains_key(mine[j].0@) && self@[mine[j].0@]
                        == mine[j].1,
                members_model(*self).dom() == self@.dom(),
                members_model(*other).dom() == other@.dom(),
                forall|k: Seq<char>| #[trigger]
                    self@.contains_key(k) ==> members_model(*self)[k] == model(self@[k]),
                forall|k: Seq<char>| #[trigger]
                    other@.contains_key(k) ==> members_model(*other)[k] == model(other@[k]),
            decreases n - i,
        {
            let (key, value) = self.entry(i);
            match other.get(key.as_str()) {
                None => {
                    assert(members_model(*self).dom().contains(key@));
                    assert(!members_model(*other).dom().contains(key@));
                    return false;
                },
                Some(found) => {
                    if !value.eq(found) {
                        assert(self@.contains_key(key@));
                        assert(other@.contains_key(key@));
                        assert(members_model(*self)[key@] != members_model(*other)[key@]);
                        return false;
                    }
                },
            }
            i = i + 1;
        }
        proof {
            let a = members_model(*self);
            let b = members_model(*other);
            assert(a.dom().subset_of(b.dom())) by {
                assert forall|k: Seq<char>| a.dom().contains(k) implies b.dom().contains(k) by {
                    lemma_assoc_dom(key_views(mine), k);
                    let j = choose|j: int| 0 <= j < mine.len() && (#[trigger] key_views(mine)[j]).0
                        == k;
                    assert(mine[j].0@ == k);
                    assert(other@.contains_key(mine[j].0@));
                }
            }
            lemma_subset_equality(a.dom(), b.dom());
            assert(a =~= b) by {
                assert forall|k: Seq<char>| a.dom().contains(k) implies a[k] == b[k] by {
                    lemma_assoc_dom(key_views(mine), k);
                    let j = choose|j: int| 0 <= j < mine.len() && (#[trigger] key_views(mine)[j]).0
                        == k;
                    assert(mine[j].0@ == k);
                    assert(self@.contains_key(k));
                    assert(other@.contains_key(k));
                }
            }
        }
        true
    }
}

impl vstd::std_specs::cmp::PartialEqSpecImpl for ObjectMap {
    /// `==` on this type is what `eq_spec` says.
    open spec fn obeys_eq_spec() -> bool {
        true
    }

    /// Two objects are equal where they hold the same keys and, under
    /// each key, values with the same model.
    open spec fn eq_spec(&self, other: &ObjectMap) -> bool {
        members_model(*self) == members_model(*other)
    }
}

impl PartialEq for Value {
    /// Whether the two values have the same model.
    fn eq(&self, other: &Value) -> (r: bool)
        decreases self,
    {
        match (self, other) {
            (Value::Int(a), Value::Int(b)) => *a == *b,
            (Value::Float(a), Value::Float(b)) => *a == *b,
            (Value::JsonString(a), Value::JsonString(b)) => *a == *b,
            (Value::Bool(a), Value::Bool(b)) => *a == *b,
            (Value::Null, Value::Null) => true,
            (Value::Object(a), Value::Object(b)) => a.eq(b),
            (Value::Array(a), Value::Array(b)) => {
                if a.len() != b.len() {
                    proof {
                        crate::value::lemma_models_len(a@);
                        crate::value::lemma_models_len(b@);
                    }
                    return false;
                }
                let mut i: usize = 0;
                while i < a.len()
                    invariant
                        *self == Value::Array(*a),
                        *other == Value::Array(*b),
                        i <= a.len(),
                        a.len() == b.len(),
                        forall|j: int| 0 <= j < i ==> model(#[trigger] a@[j]) == model(b@[j]),
                    decreases a.len() - i,
                {
                    proof {
                        assert(decreases_to!(self->Array_0 => self->Array_0@));
                        assert(decreases_to!(self->Array_0@ => self->Array_0@[i as int]));
                    }
                    if !a[i].eq(&b[i]) {
                        proof {
                            lemma_models_index(a@, i as int);
                            lemma_models_index(b@, i as int);
                        }
                        return false;
                    }
                    i = i + 1;
                }
                proof {
                    crate::value::lemma_models_len(a@);
                    crate::value::lemma_models_len(b@);
                    assert(models(a@) =~= models(b@)) by {
                        assert forall|j: int| 0 <= j < a@.len() implies models(a@)[j] == models(
                            b@,
                        )[j] by {
                            lemma_models_index(a@, j);
                            lemma_models_index(b@, j);
                        }
                    }
                }
                true
            },
            _ => false,
        }
    }
}

impl vstd::std_specs::cmp::PartialEqSpecImpl for Value {
    /// `==` on this type is what `eq_spec` says.
    open spec fn obeys_eq_spec() -> bool {
        true
    }

    /// Two values are equal where their models are.
    open spec fn eq_spec(&self, other: &Value) -> bool {
        self@ == other@
    }
}

} // verus!
