//! Navigation: the value that a path leads to in a tree.
use super::path::{parse_path, parse_spec, steps_of, PathPart, Step};
use super::value::{lemma_array_view, lemma_object_view, Tree, Value};
use vstd::prelude::*;

verus! {

/// The position of the first member at or after `from` whose key is `key`.
pub open spec fn first_match(members: Seq<(Seq<char>, Tree)>, key: Seq<char>, from: int) -> Option<
    int,
>
    decreases members.len() - from,
{
    if from < 0 || from >= members.len() {
        None
    } else if members[from].0 == key {
        Some(from)
    } else {
        first_match(members, key, from + 1)
    }
}

impl Tree {
    /// The value that one step leads to: the member of an object with the
    /// given key, or the item of an array at the given position.  A key
    /// leads nowhere in anything but an object, and a position nowhere in
    /// anything but an array.
    pub open spec fn get(self, step: Step) -> Option<Tree> {
        match (self, step) {
            (Tree::Object(members), Step::Key(key)) => match first_match(members, key, 0) {
                Some(i) => Some(members[i].1),
                None => None,
            },
            (Tree::Array(items), Step::Index(n)) => if n < items.len() {
                Some(items[n as int])
            } else {
                None
            },
            _ => None,
        }
    }

    /// The value that `steps` lead to, if each of them leads somewhere.
    pub open spec fn navigate(self, steps: Seq<Step>) -> Option<Tree>
        decreases steps.len(),
    {
        if steps.len() == 0 {
            Some(self)
        } else {
            match self.get(steps[0]) {
                Some(child) => child.navigate(steps.drop_first()),
                None => None,
            }
        }
    }
}

/// The value that a path string leads to in a tree.
pub open spec fn lookup_spec(tree: Tree, path: Seq<char>) -> Option<Tree> {
    tree.navigate(parse_spec(path))
}

/// The member of an object with the given key.
pub(crate) fn get_member<'a>(members: &'a Vec<(String, Value)>, key: &String) -> (found: Option<&'a Value>)
    ensures
        match found {
            Some(value) => Value::Object(*members)@.get(Step::Key(key@)) == Some(value@),
            None => Value::Object(*members)@.get(Step::Key(key@)) is None,
        },
{
    let ghost model = Value::Object(*members)@->Object_0;
    proof {
        lemma_object_view(*members);
    }
    let mut i: usize = 0;
    while i < members.len()
        invariant
            i <= members.len(),
            model == Value::Object(*members)@->Object_0,
            model.len() == members.len(),
            forall|j: int| 0 <= j < members.len() ==> #[trigger] model[j] == (members[j].0@, members[j].1@),
            first_match(model, key@, 0) == first_match(model, key@, i as int),
        decreases members.len() - i,
    {
        if members[i].0 == *key {
            return Some(&members[i].1);
        }
        i += 1;
    }
    None
}

/// The value that one part of a path leads to.
fn get_child<'a>(value: &'a Value, part: &PathPart) -> (found: Option<&'a Value>)
    ensures
        match found {
            Some(child) => value@.get(part@) == Some(child@),
            None => value@.get(part@) is None,
        },
{
    match (value, part) {
        (Value::Object(members), PathPart::Key(key)) => get_member(members, key),
        (Value::Array(items), PathPart::Index(index)) => {
            proof {
                lemma_array_view(*items);
            }
            if *index < items.len() {
                Some(&items[*index])
            } else {
                None
            }
        },
        _ => None,
    }
}

/// The value that `path` leads to in `value`: the path is read leniently,
/// and its steps are taken one after another.  There is no such value as
/// soon as one step leads nowhere.
pub fn get_value_by_path<'a>(value: &'a Value, path: &str) -> (found: Option<&'a Value>)
    ensures
        match found {
            Some(target) => lookup_spec(value@, path@) == Some(target@),
            None => lookup_spec(value@, path@) is None,
        },
{
    let parts = parse_path(path);
    let ghost steps = steps_of(parts@);
    let mut current = value;
    let mut i: usize = 0;
    assert(steps.skip(0) =~= steps);
    while i < parts.len()
        invariant
            i <= parts.len(),
            steps == steps_of(parts@),
            steps == parse_spec(path@),
            value@.navigate(steps) == current@.navigate(steps.skip(i as int)),
        decreases parts.len() - i,
    {
        assert(steps.skip(i as int).drop_first() =~= steps.skip(i + 1));
        assert(steps.skip(i as int)[0] == parts@[i as int]@);
        match get_child(current, &parts[i]) {
            Some(child) => {
                current = child;
            },
            None => {
                return None;
            },
        }
        i += 1;
    }
    Some(current)
}

} // verus!
