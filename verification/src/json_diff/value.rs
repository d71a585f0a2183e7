//! JSON values, their mathematical model, and their type categories.
use super::number::Number;
use vstd::prelude::*;

verus! {

/// A JSON value.
///
/// An object holds its members in iteration order.  A value is well formed
/// (`Tree::wf`) when no object in it holds a key twice and every number in
/// it is well formed.
#[derive(Debug)]
pub enum Value {
    Null,
    Bool(bool),
    Number(Number),
    String(String),
    Array(Vec<Value>),
    Object(Vec<(String, Value)>),
}

/// The mathematical model of a `Value`.
pub enum Tree {
    Null,
    Bool(bool),
    Number(Number),
    String(Seq<char>),
    Array(Seq<Tree>),
    Object(Seq<(Seq<char>, Tree)>),
}

/// The model of a value: the same tree, with every string and every
/// collection replaced by its mathematical counterpart.
pub open spec fn tree_of(value: Value) -> Tree
    decreases value,
{
    match value {
        Value::Null => Tree::Null,
        Value::Bool(b) => Tree::Bool(b),
        Value::Number(n) => Tree::Number(n),
        Value::String(s) => Tree::String(s@),
        Value::Array(items) => Tree::Array(
            Seq::new(
                items.len() as nat,
                |i: int|
                    if 0 <= i < items.len() {
                        tree_of(items[i])
                    } else {
                        Tree::Null
                    },
            ),
        ),
        Value::Object(members) => Tree::Object(
            Seq::new(
                members.len() as nat,
                |i: int|
                    if 0 <= i < members.len() {
                        (members[i].0@, tree_of(members[i].1))
                    } else {
                        (Seq::empty(), Tree::Null)
                    },
            ),
        ),
    }
}

impl View for Value {
    type V = Tree;

    open spec fn view(&self) -> Tree {
        tree_of(*self)
    }
}

/// The model of an array holds the models of its items, in order.
pub proof fn lemma_array_view(items: Vec<Value>)
    ensures
        Value::Array(items)@ is Array,
        Value::Array(items)@->Array_0.len() == items.len(),
        forall|i: int| 0 <= i < items.len() ==> #[trigger] Value::Array(items)@->Array_0[i] == items[i]@,
{
}

/// The model of an object holds the models of its members, in order.
pub proof fn lemma_object_view(members: Vec<(String, Value)>)
    ensures
        Value::Object(members)@ is Object,
        Value::Object(members)@->Object_0.len() == members.len(),
        forall|i: int|
            0 <= i < members.len() ==> #[trigger] Value::Object(members)@->Object_0[i] == (
                members[i].0@,
                members[i].1@,
            ),
{
}

impl Clone for Value {
    fn clone(&self) -> (copy: Self)
        ensures
            copy@ == self@,
        decreases self,
    {
        match self {
            Value::Null => Value::Null,
            Value::Bool(b) => Value::Bool(*b),
            Value::Number(n) => Value::Number(*n),
            Value::String(s) => Value::String(s.clone()),
            Value::Array(items) => {
                let mut copies: Vec<Value> = Vec::new();
                let mut i: usize = 0;
                while i < items.len()
                    invariant
                        i <= items.len(),
                        self is Array && self->Array_0 == *items,
                        copies.len() == i,
                        forall|j: int| 0 <= j < i ==> (#[trigger] copies[j])@ == items[j]@,
                    decreases items.len() - i,
                {
                    assert(decreases_to!(*items => items[i as int]));
                    copies.push(items[i].clone());
                    i += 1;
                }
                proof {
                    lemma_array_view(copies);
                    lemma_array_view(*items);
                }
                let copy = Value::Array(copies);
                assert(copy@->Array_0 =~= self@->Array_0);
                copy
            },
            Value::Object(members) => {
                let mut copies: Vec<(String, Value)> = Vec::new();
                let mut i: usize = 0;
                while i < members.len()
                    invariant
                        i <= members.len(),
                        self is Object && self->Object_0 == *members,
                        copies.len() == i,
                        forall|j: int|
                            0 <= j < i ==> (#[trigger] copies[j]).0@ == members[j].0@ && copies[j].1@
                                == members[j].1@,
                    decreases members.len() - i,
                {
                    assert(decreases_to!(*members => members[i as int]));
                    copies.push((members[i].0.clone(), members[i].1.clone()));
                    i += 1;
                }
                proof {
                    lemma_object_view(copies);
                    lemma_object_view(*members);
                }
                let copy = Value::Object(copies);
                assert(copy@->Object_0 =~= self@->Object_0);
                copy
            },
        }
    }
}

/// The six type categories of JSON values.
#[derive(Clone, Copy, Debug, PartialEq, Eq, Structural)]
pub enum Category {
    Null,
    Boolean,
    Number,
    String,
    Array,
    Object,
}

impl Tree {
    /// The type category of a value.
    pub open spec fn category(self) -> Category {
        match self {
            Tree::Null => Category::Null,
            Tree::Bool(_) => Category::Boolean,
            Tree::Number(_) => Category::Number,
            Tree::String(_) => Category::String,
            Tree::Array(_) => Category::Array,
            Tree::Object(_) => Category::Object,
        }
    }

    /// The name of the type category of a value.
    pub open spec fn tag(self) -> Seq<char> {
        match self {
            Tree::Null => "null"@,
            Tree::Bool(_) => "boolean"@,
            Tree::Number(_) => "number"@,
            Tree::String(_) => "string"@,
            Tree::Array(_) => "array"@,
            Tree::Object(_) => "object"@,
        }
    }

    /// A tree is well formed when it is the model of a value that a JSON
    /// document can hold: no object in it holds a key twice, every number
    /// in it is well formed, and every array and object in it can be held
    /// in memory.
    pub open spec fn wf(self) -> bool
        decreases self,
    {
        match self {
            Tree::Number(n) => n.wf(),
            Tree::Array(items) => {
                &&& items.len() <= usize::MAX
                &&& forall|i: int| 0 <= i < items.len() ==> (#[trigger] items[i]).wf()
            },
            Tree::Object(members) => {
                &&& members.len() <= usize::MAX
                &&& forall|i: int, j: int|
                    0 <= i < j < members.len() ==> (#[trigger] members[i]).0 != (
                    #[trigger] members[j]).0
                &&& forall|i: int| 0 <= i < members.len() ==> (#[trigger] members[i]).1.wf()
            },
            _ => true,
        }
    }

    /// Arrays and objects are the values that hold other values.
    pub open spec fn is_container(self) -> bool {
        self is Array || self is Object
    }
}

/// Whether two values belong to the same type category, whatever they hold.
pub fn same_type(a: &Value, b: &Value) -> (same: bool)
    ensures
        same == (a@.category() == b@.category()),
{
    match (a, b) {
        (Value::Null, Value::Null) => true,
        (Value::Bool(_), Value::Bool(_)) => true,
        (Value::Number(_), Value::Number(_)) => true,
        (Value::String(_), Value::String(_)) => true,
        (Value::Array(_), Value::Array(_)) => true,
        (Value::Object(_), Value::Object(_)) => true,
        _ => false,
    }
}

/// The name of the type category of a value: `null`, `boolean`, `number`,
/// `string`, `array` or `object`.
pub fn get_value_type(value: &Value) -> (name: String)
    ensures
        name@ == value@.tag(),
{
    match value {
        Value::Null => "null".to_string(),
        Value::Bool(_) => "boolean".to_string(),
        Value::Number(_) => "number".to_string(),
        Value::String(_) => "string".to_string(),
        Value::Array(_) => "array".to_string(),
        Value::Object(_) => "object".to_string(),
    }
}

/// Whether no two of the members hold the same key.
fn keys_differ(members: &Vec<(String, Value)>) -> (ok: bool)
    ensures
        ok == (forall|i: int, j: int|
            0 <= i < j < members.len() ==> (#[trigger] members[i]).0@ != (#[trigger] members[j]).0@),
{
    let mut j: usize = 0;
    while j < members.len()
        invariant
            j <= members.len(),
            forall|a: int, b: int|
                0 <= a < b < j ==> (#[trigger] members[a]).0@ != (#[trigger] members[b]).0@,
        decreases members.len() - j,
    {
        let mut i: usize = 0;
        while i < j
            invariant
                i <= j < members.len(),
                forall|a: int| 0 <= a < i ==> (#[trigger] members[a]).0@ != members[j as int].0@,
            decreases j - i,
        {
            if members[i].0 == members[j].0 {
                return false;
            }
            i += 1;
        }
        j += 1;
    }
    true
}

/// Whether a value is well formed: no object in it holds a key twice, and
/// every number in it is well formed.
pub fn is_well_formed(value: &Value) -> (ok: bool)
    ensures
        ok == value@.wf(),
    decreases value,
{
    match value {
        Value::Number(n) => n.is_well_formed(),
        Value::Array(items) => {
            proof {
                lemma_array_view(*items);
            }
            let mut i: usize = 0;
            while i < items.len()
                invariant
                    i <= items.len(),
                    value is Array && value->Array_0 == *items,
                    forall|j: int| 0 <= j < i ==> (#[trigger] value@->Array_0[j]).wf(),
                decreases items.len() - i,
            {
                proof {
                    lemma_array_view(*items);
                }
                assert(decreases_to!(*items => items[i as int]));
                if !is_well_formed(&items[i]) {
                    assert(!value@->Array_0[i as int].wf());
                    return false;
                }
                i += 1;
            }
            true
        },
        Value::Object(members) => {
            proof {
                lemma_object_view(*members);
            }
            if !keys_differ(members) {
                let ghost (a, b) = choose|a: int, b: int|
                    0 <= a < b < members.len() && (#[trigger] members[a]).0@ == (
                    #[trigger] members[b]).0@;
                assert(value@->Object_0[a].0 == value@->Object_0[b].0);
                return false;
            }
            let mut i: usize = 0;
            while i < members.len()
                invariant
                    i <= members.len(),
                    value is Object && value->Object_0 == *members,
                    forall|j: int| 0 <= j < i ==> (#[trigger] value@->Object_0[j]).1.wf(),
                decreases members.len() - i,
            {
                proof {
                    lemma_object_view(*members);
                }
                assert(decreases_to!(*members => members[i as int]));
                if !is_well_formed(&members[i].1) {
                    assert(!value@->Object_0[i as int].1.wf());
                    return false;
                }
                i += 1;
            }
            assert forall|a: int, b: int| 0 <= a < b < value@->Object_0.len() implies (
            #[trigger] value@->Object_0[a]).0 != (#[trigger] value@->Object_0[b]).0 by {
                assert(members[a].0@ != members[b].0@);
            }
            true
        },
        _ => true,
    }
}

} // verus!
