//! The flattener: one entry for every node of a tree but its root.
use super::path::{append_index, append_key, extend, lemma_extend_first, step_text, Step};
use super::value::{lemma_array_view, lemma_object_view, Tree, Value};
use vstd::prelude::*;

verus! {

impl Tree {
    /// The number of values that a value holds directly.
    pub open spec fn child_count(self) -> nat {
        match self {
            Tree::Array(items) => items.len(),
            Tree::Object(members) => members.len(),
            _ => 0,
        }
    }

    /// The `i`-th value that a container holds.
    pub open spec fn child(self, i: int) -> Tree {
        match self {
            Tree::Array(items) => items[i],
            Tree::Object(members) => members[i].1,
            _ => Tree::Null,
        }
    }

    /// The step that leads from a container to the `i`-th value it holds.
    pub open spec fn child_step(self, i: int) -> Step {
        match self {
            Tree::Object(members) => Step::Key(members[i].0),
            _ => Step::Index(i as nat),
        }
    }
}

/// A node of a tree: the steps that lead to it from the root, and the
/// subtree found there.
pub type Node = (Seq<Step>, Tree);

/// The nodes `nodes` of a subtree, seen from the container that holds the
/// subtree under `step`.
pub open spec fn below(step: Step, nodes: Seq<Node>) -> Seq<Node> {
    Seq::new(nodes.len(), |k: int| (seq![step] + nodes[k].0, nodes[k].1))
}

/// The nodes below the root of `tree` that are reached through one of its
/// first `n` children, depth first: each child right before its own
/// descendants, the children in their order.
pub open spec fn nodes_upto(tree: Tree, n: nat) -> Seq<Node>
    decreases tree, n,
{
    if n == 0 || n > tree.child_count() {
        seq![]
    } else {
        let i = n - 1;
        match tree {
            Tree::Array(items) => nodes_upto(tree, i as nat) + seq![
                (seq![Step::Index(i as nat)], items[i]),
            ] + below(Step::Index(i as nat), nodes_upto(items[i], items[i].child_count())),
            Tree::Object(members) => nodes_upto(tree, i as nat) + seq![
                (seq![Step::Key(members[i].0)], members[i].1),
            ] + below(
                Step::Key(members[i].0),
                nodes_upto(members[i].1, members[i].1.child_count()),
            ),
            _ => seq![],
        }
    }
}

/// All nodes of `tree` but its root, depth first.
pub open spec fn nodes(tree: Tree) -> Seq<Node> {
    nodes_upto(tree, tree.child_count())
}

/// The entries for `nodes`, each under the path that its steps lead to
/// from `path`.
pub open spec fn located(path: Seq<char>, first: bool, nodes: Seq<Node>) -> Seq<(Seq<char>, Tree)> {
    Seq::new(nodes.len(), |k: int| (extend(path, first, nodes[k].0), nodes[k].1))
}

/// The entries of a tree that stands at `path`.
///
/// A container gives one entry for each node below it, depth first, and
/// none for itself; it is the root when `path` is empty.  Any other value
/// gives one entry, itself, unless `path` is empty.
pub open spec fn flatten_spec(tree: Tree, path: Seq<char>) -> Seq<(Seq<char>, Tree)> {
    if tree.is_container() {
        located(path, path.len() == 0, nodes(tree))
    } else if path.len() > 0 {
        seq![(path, tree)]
    } else {
        seq![]
    }
}

/// The models of a sequence of entries.
pub open spec fn entries_of(items: Seq<(String, Value)>) -> Seq<(Seq<char>, Tree)> {
    Seq::new(items.len(), |i: int| (items[i].0@, items[i].1@))
}

/// The models of the entries, with one more entry, are the models with
/// one more model.
proof fn lemma_entries_push(items: Seq<(String, Value)>, item: (String, Value))
    ensures
        entries_of(items.push(item)) == entries_of(items).push((item.0@, item.1@)),
{
    assert(entries_of(items.push(item)) =~= entries_of(items).push((item.0@, item.1@)));
}

/// The entries below a container, through its first `n` children, are
/// those through the first `n - 1`, then the entry of the `n`-th child,
/// then the entries below that child.
proof fn lemma_located_step(tree: Tree, n: nat, path: Seq<char>, first: bool)
    requires
        0 < n <= tree.child_count(),
    ensures
        located(path, first, nodes_upto(tree, n)) == located(
            path,
            first,
            nodes_upto(tree, (n - 1) as nat),
        ).push((path + step_text(first, tree.child_step(n - 1)), tree.child(n - 1))) + located(
            path + step_text(first, tree.child_step(n - 1)),
            false,
            nodes(tree.child(n - 1)),
        ),
{
    let step = tree.child_step(n - 1);
    let child = tree.child(n - 1);
    let before = nodes_upto(tree, (n - 1) as nat);
    let inner = nodes(child);
    assert(nodes_upto(tree, n) == before + seq![(seq![step], child)] + below(step, inner));
    let child_path = path + step_text(first, step);
    assert(extend(path, first, seq![step]) == child_path) by {
        lemma_extend_first(path, first, step, seq![]);
        assert(seq![step] + Seq::<Step>::empty() =~= seq![step]);
    }
    assert forall|k: int| 0 <= k < inner.len() implies extend(
        path,
        first,
        #[trigger] below(step, inner)[k].0,
    ) == extend(child_path, false, inner[k].0) by {
        lemma_extend_first(path, first, step, inner[k].0);
    }
    assert(located(path, first, nodes_upto(tree, n)) =~= located(path, first, before).push(
        (child_path, child),
    ) + located(child_path, false, inner));
}

/// Adds to `items` the entries below `value`, which stands at `path`.
fn collect(value: &Value, path: &str, first: bool, items: &mut Vec<(String, Value)>)
    ensures
        entries_of(final(items)@) == entries_of(old(items)@) + located(
            path@,
            first,
            nodes(value@),
        ),
    decreases value,
{
    let ghost start = entries_of(items@);
    match value {
        Value::Array(elements) => {
            let mut i: usize = 0;
            assert(entries_of(items@) =~= start + located(path@, first, nodes_upto(value@, 0)));
            while i < elements.len()
                invariant
                    i <= elements.len(),
                    value is Array && value->Array_0 == *elements,
                    entries_of(items@) == start + located(
                        path@,
                        first,
                        nodes_upto(value@, i as nat),
                    ),
                decreases elements.len() - i,
            {
                let child = &elements[i];
                let child_path = append_index(path, i);
                let entry = (child_path.clone(), child.clone());
                proof {
                    lemma_array_view(*elements);
                    lemma_located_step(value@, (i + 1) as nat, path@, first);
                    lemma_entries_push(items@, entry);
                }
                items.push(entry);
                if is_container(child) {
                    assert(decreases_to!(*elements => elements[i as int]));
                    collect(child, child_path.as_str(), false, items);
                } else {
                    assert(located(child_path@, false, nodes(child@)) =~= seq![]);
                }
                i += 1;
                assert(entries_of(items@) =~= start + located(
                    path@,
                    first,
                    nodes_upto(value@, i as nat),
                ));
            }
        },
        Value::Object(members) => {
            let mut i: usize = 0;
            assert(entries_of(items@) =~= start + located(path@, first, nodes_upto(value@, 0)));
            while i < members.len()
                invariant
                    i <= members.len(),
                    value is Object && value->Object_0 == *members,
                    entries_of(items@) == start + located(
                        path@,
                        first,
                        nodes_upto(value@, i as nat),
                    ),
                decreases members.len() - i,
            {
                let key = &members[i].0;
                let child = &members[i].1;
                let child_path = append_key(path, first, key.as_str());
                let entry = (child_path.clone(), child.clone());
                proof {
                    lemma_object_view(*members);
                    lemma_located_step(value@, (i + 1) as nat, path@, first);
                    lemma_entries_push(items@, entry);
                }
                items.push(entry);
                if is_container(child) {
                    assert(decreases_to!(*members => members[i as int]));
                    collect(child, child_path.as_str(), false, items);
                } else {
                    assert(located(child_path@, false, nodes(child@)) =~= seq![]);
                }
                i += 1;
                assert(entries_of(items@) =~= start + located(
                    path@,
                    first,
                    nodes_upto(value@, i as nat),
                ));
            }
        },
        _ => {
            assert(entries_of(items@) =~= start + located(path@, first, nodes(value@)));
        },
    }
}

/// Whether a value is an array or an object.
pub fn is_container(value: &Value) -> (container: bool)
    ensures
        container == value@.is_container(),
{
    match value {
        Value::Array(_) => true,
        Value::Object(_) => true,
        _ => false,
    }
}

/// The entries of `value`, which stands at `current_path`: for a
/// container, every node below it with its path, depth first; for any
/// other value, the value itself, unless `current_path` is empty.
pub fn get_all_items(value: &Value, current_path: String) -> (items: Vec<(String, Value)>)
    ensures
        entries_of(items@) == flatten_spec(value@, current_path@),
{
    let mut items: Vec<(String, Value)> = Vec::new();
    assert(entries_of(items@) =~= seq![]);
    if is_container(value) {
        let first = current_path.as_str().is_empty();
        collect(value, current_path.as_str(), first, &mut items);
        assert(entries_of(items@) =~= flatten_spec(value@, current_path@));
    } else if !current_path.as_str().is_empty() {
        proof {
            lemma_entries_push(items@, (current_path, *value));
        }
        items.push((current_path, value.clone()));
        assert(entries_of(items@) =~= flatten_spec(value@, current_path@));
    }
    items
}

} // verus!
