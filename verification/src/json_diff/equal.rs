//! The value comparator: deep equality, and equality with numeric
//! tolerance.
use super::lookup::get_member;
use super::path::Step;
use super::value::{lemma_array_view, lemma_object_view, Tree, Value};
use vstd::prelude::*;

verus! {

/// Deep equality of two values.
///
/// Values of different type categories are never equal.  Numbers are equal
/// when they are held in the same form and are equal in it.  Arrays are
/// equal when they have the same length and equal items at each position.
/// Objects are equal when they have the same number of members and each
/// key of the first leads, in the second, to an equal value: the order of
/// the members does not count.
pub open spec fn deep_eq(a: Tree, b: Tree) -> bool
    decreases a,
{
    match (a, b) {
        (Tree::Null, Tree::Null) => true,
        (Tree::Bool(x), Tree::Bool(y)) => x == y,
        (Tree::Number(x), Tree::Number(y)) => x.same_as_spec(y),
        (Tree::String(x), Tree::String(y)) => x == y,
        (Tree::Array(x), Tree::Array(y)) => {
            &&& x.len() == y.len()
            &&& forall|i: int| 0 <= i < x.len() ==> deep_eq(#[trigger] x[i], y[i])
        },
        (Tree::Object(x), Tree::Object(y)) => {
            &&& x.len() == y.len()
            &&& forall|i: int|
                0 <= i < x.len() ==> match b.get(Step::Key((#[trigger] x[i]).0)) {
                    Some(other) => deep_eq(x[i].1, other),
                    None => false,
                }
        },
        _ => false,
    }
}

/// Equality of two values as the comparison reports it: two numbers are
/// equal when they are close as doubles, and any other two values when
/// they are deeply equal.
pub open spec fn values_equal_spec(a: Tree, b: Tree) -> bool {
    match (a, b) {
        (Tree::Number(x), Tree::Number(y)) => x.close_to_spec(y),
        _ => deep_eq(a, b),
    }
}

/// Whether two values are deeply equal.
pub fn deep_equal(a: &Value, b: &Value) -> (equal: bool)
    ensures
        equal == deep_eq(a@, b@),
    decreases a,
{
    match (a, b) {
        (Value::Null, Value::Null) => true,
        (Value::Bool(x), Value::Bool(y)) => *x == *y,
        (Value::Number(x), Value::Number(y)) => x.same_as(y),
        (Value::String(x), Value::String(y)) => *x == *y,
        (Value::Array(x), Value::Array(y)) => {
            proof {
                lemma_array_view(*x);
                lemma_array_view(*y);
            }
            if x.len() != y.len() {
                return false;
            }
            let mut i: usize = 0;
            while i < x.len()
                invariant
                    i <= x.len(),
                    x.len() == y.len(),
                    a is Array && a->Array_0 == *x,
                    b is Array && b->Array_0 == *y,
                    forall|j: int| 0 <= j < i ==> deep_eq(#[trigger] a@->Array_0[j], b@->Array_0[j]),
                decreases x.len() - i,
            {
                proof {
                    lemma_array_view(*x);
                    lemma_array_view(*y);
                }
                assert(decreases_to!(*x => x[i as int]));
                if !deep_equal(&x[i], &y[i]) {
                    assert(!deep_eq(a@->Array_0[i as int], b@->Array_0[i as int]));
                    return false;
                }
                i += 1;
            }
            true
        },
        (Value::Object(x), Value::Object(y)) => {
            proof {
                lemma_object_view(*x);
                lemma_object_view(*y);
            }
            if x.len() != y.len() {
                return false;
            }
            let mut i: usize = 0;
            while i < x.len()
                invariant
                    i <= x.len(),
                    x.len() == y.len(),
                    a is Object && a->Object_0 == *x,
                    b is Object && b->Object_0 == *y,
                    forall|j: int|
                        0 <= j < i ==> match b@.get(Step::Key((#[trigger] a@->Object_0[j]).0)) {
                            Some(other) => deep_eq(a@->Object_0[j].1, other),
                            None => false,
                        },
                decreases x.len() - i,
            {
                proof {
                    lemma_object_view(*x);
                    lemma_object_view(*y);
                }
                assert(decreases_to!(*x => x[i as int]));
                let matched = match get_member(y, &x[i].0) {
                    Some(other) => deep_equal(&x[i].1, other),
                    None => false,
                };
                if !matched {
                    assert(a@->Object_0[i as int] == (x[i as int].0@, x[i as int].1@));
                    return false;
                }
                i += 1;
            }
            true
        },
        _ => false,
    }
}

impl PartialEq for Value {
    /// Deep equality.
    fn eq(&self, other: &Value) -> (equal: bool) {
        deep_equal(self, other)
    }
}

impl vstd::std_specs::cmp::PartialEqSpecImpl for Value {
    open spec fn obeys_eq_spec() -> bool {
        true
    }

    open spec fn eq_spec(&self, other: &Value) -> bool {
        deep_eq(self@, other@)
    }
}

/// Whether two values are equal as the comparison reports it: numbers are
/// compared as doubles, with a tolerance below the machine epsilon; all
/// other values are compared deeply.
pub fn values_equal(a: &Value, b: &Value) -> (equal: bool)
    ensures
        equal == values_equal_spec(a@, b@),
{
    match (a, b) {
        (Value::Number(x), Value::Number(y)) => x.close_to(y),
        _ => deep_equal(a, b),
    }
}

} // verus!
