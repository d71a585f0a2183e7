//! What holds of the flattener, the navigation and the comparator taken
//! together.
use super::diff::{
    compare_spec, is_strict_prefix, outcome_upto, CompareOptions, Outcome,
};
use super::equal::{deep_eq, values_equal_spec};
use super::flatten::{below, flatten_spec, located, nodes, nodes_upto};
use super::lookup::{first_match, lookup_spec};
use super::path::{encode_spec, parse_spec, step_text, Step};
use super::round_trip::{lemma_canonical_round_trip, safe_key, safe_steps};
use super::value::Tree;
use vstd::arithmetic::power2::lemma_pow2_strictly_increases;
use vstd::prelude::*;

verus! {

/// Every key among `steps` survives the round trip through a path string.
pub open spec fn safe_keys(steps: Seq<Step>) -> bool {
    forall|i: int|
        0 <= i < steps.len() ==> ((#[trigger] steps[i]) matches Step::Key(key) ==> safe_key(key))
}

/// Every position among `steps` fits the machine word.
pub open spec fn positions_fit(steps: Seq<Step>) -> bool {
    forall|i: int|
        0 <= i < steps.len() ==> ((#[trigger] steps[i]) matches Step::Index(n) ==> n
            <= usize::MAX)
}

/// What the search for a key finds holds that key, and where it finds
/// nothing, no member holds the key.
proof fn lemma_first_match_finds(members: Seq<(Seq<char>, Tree)>, key: Seq<char>, from: int)
    requires
        0 <= from,
    ensures
        match first_match(members, key, from) {
            Some(i) => from <= i < members.len() && members[i].0 == key,
            None => forall|i: int| from <= i < members.len() ==> (#[trigger] members[i]).0 != key,
        },
    decreases members.len() - from,
{
    if from < members.len() && members[from].0 != key {
        lemma_first_match_finds(members, key, from + 1);
    }
}

/// Where no key occurs twice, the search for the key of a member finds
/// that member.
proof fn lemma_first_match_unique(members: Seq<(Seq<char>, Tree)>, i: int, from: int)
    requires
        0 <= from <= i < members.len(),
        forall|a: int, b: int|
            0 <= a < b < members.len() ==> (#[trigger] members[a]).0 != (#[trigger] members[b]).0,
    ensures
        first_match(members, members[i].0, from) == Some(i),
    decreases i - from,
{
    if from < i {
        lemma_first_match_unique(members, i, from + 1);
    }
}

/// In a well-formed container, the step of each child leads to that
/// child, and different children have different steps.
proof fn lemma_child_steps(tree: Tree)
    requires
        tree.wf(),
    ensures
        forall|i: int|
            0 <= i < tree.child_count() ==> {
                &&& tree.get(#[trigger] tree.child_step(i)) == Some(tree.child(i))
                &&& tree.child(i).wf()
                &&& positions_fit(seq![tree.child_step(i)])
            },
        forall|i: int, j: int|
            0 <= i < j < tree.child_count() ==> #[trigger] tree.child_step(i)
                != #[trigger] tree.child_step(j),
{
    assert forall|i: int| 0 <= i < tree.child_count() implies {
        &&& tree.get(#[trigger] tree.child_step(i)) == Some(tree.child(i))
        &&& tree.child(i).wf()
        &&& positions_fit(seq![tree.child_step(i)])
    } by {
        match tree {
            Tree::Object(members) => {
                lemma_first_match_unique(members, i, 0);
            },
            _ => {},
        }
    }
    assert forall|i: int, j: int| 0 <= i < j < tree.child_count() implies #[trigger] tree.child_step(
        i,
    ) != #[trigger] tree.child_step(j) by {
        match tree {
            Tree::Object(members) => {
                assert(members[i].0 != members[j].0);
            },
            _ => {},
        }
    }
}

/// The nodes listed through the first `n` children, taken apart: those
/// through the first `n - 1`, the `n`-th child, and the nodes below it.
proof fn lemma_nodes_unfold(tree: Tree, n: nat)
    requires
        0 < n <= tree.child_count(),
    ensures
        nodes_upto(tree, n) == nodes_upto(tree, (n - 1) as nat) + seq![
            (seq![tree.child_step(n - 1)], tree.child(n - 1)),
        ] + below(tree.child_step(n - 1), nodes(tree.child(n - 1))),
{
}

/// Every listed node lies below the root, and its first step is the step
/// of one of the children listed through.
proof fn lemma_nodes_start(tree: Tree, n: nat, k: int)
    requires
        n <= tree.child_count(),
        0 <= k < nodes_upto(tree, n).len(),
    ensures
        nodes_upto(tree, n)[k].0.len() > 0,
        exists|c: int| 0 <= c < n && nodes_upto(tree, n)[k].0[0] == tree.child_step(c),
    decreases n,
{
    if n > 0 {
        lemma_nodes_unfold(tree, n);
        let before = nodes_upto(tree, (n - 1) as nat);
        if k < before.len() {
            lemma_nodes_start(tree, (n - 1) as nat, k);
            let c = choose|c: int| 0 <= c < n - 1 && before[k].0[0] == tree.child_step(c);
            assert(0 <= c < n && nodes_upto(tree, n)[k].0[0] == tree.child_step(c));
        } else {
            assert(nodes_upto(tree, n)[k].0[0] == tree.child_step(n - 1));
        }
    }
}

/// In a well-formed tree, the steps of every listed node lead to that
/// node, and their positions fit the machine word.
proof fn lemma_nodes_lead(tree: Tree, n: nat, k: int)
    requires
        tree.wf(),
        n <= tree.child_count(),
        0 <= k < nodes_upto(tree, n).len(),
    ensures
        tree.navigate(nodes_upto(tree, n)[k].0) == Some(nodes_upto(tree, n)[k].1),
        positions_fit(nodes_upto(tree, n)[k].0),
        nodes_upto(tree, n)[k].1.wf(),
    decreases tree, n,
{
    if n > 0 {
        lemma_nodes_unfold(tree, n);
        lemma_child_steps(tree);
        let before = nodes_upto(tree, (n - 1) as nat);
        let step = tree.child_step(n - 1);
        let child = tree.child(n - 1);
        let node = nodes_upto(tree, n)[k];
        assert(tree.get(step) == Some(child));
        assert(positions_fit(seq![step]));
        if k < before.len() {
            lemma_nodes_lead(tree, (n - 1) as nat, k);
        } else if k == before.len() {
            assert(node.0 == seq![step]);
            assert(node.0.drop_first() =~= Seq::<Step>::empty());
            assert(child.navigate(Seq::<Step>::empty()) == Some(child));
        } else {
            let inner = nodes(child)[k - before.len() - 1];
            assert(node == (seq![step] + inner.0, inner.1));
            assert(decreases_to!(tree => child)) by {
                match tree {
                    Tree::Array(items) => {
                        assert(decreases_to!(items => items[n - 1]));
                    },
                    Tree::Object(members) => {
                        assert(decreases_to!(members => members[n - 1]));
                    },
                    _ => {},
                }
            }
            lemma_nodes_lead(child, child.child_count(), k - before.len() - 1);
            assert(node.0.drop_first() =~= inner.0);
            assert forall|i: int| 0 <= i < node.0.len() implies ((#[trigger] node.0[i]) matches Step::Index(
                m,
            ) ==> m <= usize::MAX) by {
                if i > 0 {
                    assert(node.0[i] == inner.0[i - 1]);
                } else {
                    assert(node.0[i] == seq![step][0]);
                }
            }
        }
    }
}

/// In a well-formed tree, no two listed nodes are reached by the same
/// steps.
proof fn lemma_nodes_distinct(tree: Tree, n: nat, j: int, k: int)
    requires
        tree.wf(),
        n <= tree.child_count(),
        0 <= j < k < nodes_upto(tree, n).len(),
    ensures
        nodes_upto(tree, n)[j].0 != nodes_upto(tree, n)[k].0,
    decreases tree, n,
{
    if n > 0 {
        lemma_nodes_unfold(tree, n);
        lemma_child_steps(tree);
        let before = nodes_upto(tree, (n - 1) as nat);
        let step = tree.child_step(n - 1);
        let child = tree.child(n - 1);
        let all = nodes_upto(tree, n);
        if k < before.len() {
            lemma_nodes_distinct(tree, (n - 1) as nat, j, k);
        } else if j < before.len() {
            lemma_nodes_start(tree, (n - 1) as nat, j);
            assert(all[k].0[0] == step);
        } else if j == before.len() {
            let inner = nodes(child)[k - before.len() - 1];
            lemma_nodes_start(child, child.child_count(), k - before.len() - 1);
            assert(all[j].0.len() == 1);
            assert(all[k].0.len() == 1 + inner.0.len());
        } else {
            let inner_j = nodes(child)[j - before.len() - 1];
            let inner_k = nodes(child)[k - before.len() - 1];
            assert(decreases_to!(tree => child)) by {
                match tree {
                    Tree::Array(items) => {
                        assert(decreases_to!(items => items[n - 1]));
                    },
                    Tree::Object(members) => {
                        assert(decreases_to!(members => members[n - 1]));
                    },
                    _ => {},
                }
            }
            lemma_nodes_distinct(
                child,
                child.child_count(),
                j - before.len() - 1,
                k - before.len() - 1,
            );
            assert(all[j].0.drop_first() =~= inner_j.0);
            assert(all[k].0.drop_first() =~= inner_k.0);
        }
    }
}

/// The nodes listed through the first `n` children hold each of these
/// children, and every node listed below it.
proof fn lemma_nodes_hold(tree: Tree, n: nat, c: int)
    requires
        0 <= c < n <= tree.child_count(),
    ensures
        nodes_upto(tree, n).contains((seq![tree.child_step(c)], tree.child(c))),
        forall|k: int|
            0 <= k < nodes(tree.child(c)).len() ==> nodes_upto(tree, n).contains(
                #[trigger] below(tree.child_step(c), nodes(tree.child(c)))[k],
            ),
    decreases n,
{
    lemma_nodes_unfold(tree, n);
    let before = nodes_upto(tree, (n - 1) as nat);
    let all = nodes_upto(tree, n);
    let inner = below(tree.child_step(c), nodes(tree.child(c)));
    if c == n - 1 {
        assert(all[before.len() as int] == (seq![tree.child_step(c)], tree.child(c)));
        assert forall|k: int| 0 <= k < nodes(tree.child(c)).len() implies all.contains(
            #[trigger] inner[k],
        ) by {
            assert(all[before.len() + 1 + k] == inner[k]);
        }
    } else {
        lemma_nodes_hold(tree, (n - 1) as nat, c);
        let at = choose|i: int|
            0 <= i < before.len() && before[i] == (seq![tree.child_step(c)], tree.child(c));
        assert(all[at] == before[at]);
        assert forall|k: int| 0 <= k < nodes(tree.child(c)).len() implies all.contains(
            #[trigger] inner[k],
        ) by {
            assert(before.contains(inner[k]));
            let i = choose|i: int| 0 <= i < before.len() && before[i] == inner[k];
            assert(all[i] == before[i]);
        }
    }
}

/// Every node below the root of a tree is listed.
proof fn lemma_nodes_complete(tree: Tree, steps: Seq<Step>)
    requires
        steps.len() > 0,
        tree.navigate(steps) is Some,
    ensures
        nodes(tree).contains((steps, tree.navigate(steps)->0)),
    decreases steps.len(),
{
    let step = steps[0];
    let rest = steps.drop_first();
    let child = tree.get(step)->0;
    let c: int = match (tree, step) {
        (Tree::Object(members), Step::Key(key)) => {
            lemma_first_match_finds(members, key, 0);
            first_match(members, key, 0)->0
        },
        (Tree::Array(items), Step::Index(n)) => n as int,
        _ => 0,
    };
    assert(0 <= c < tree.child_count() && tree.child_step(c) == step && tree.child(c) == child);
    lemma_nodes_hold(tree, tree.child_count(), c);
    if rest.len() == 0 {
        assert(steps =~= seq![step]);
    } else {
        lemma_nodes_complete(child, rest);
        let k = choose|k: int|
            0 <= k < nodes(child).len() && nodes(child)[k] == (rest, child.navigate(rest)->0);
        assert(below(step, nodes(child))[k] == (seq![step] + rest, child.navigate(rest)->0));
        assert(seq![step] + rest =~= steps);
    }
}

/// The flattener lists every node below the root of a well-formed tree
/// exactly once.
///
/// The entries of a tree are the canonical paths and the values of the
/// nodes that `nodes` lists.  The steps of each listed node are not empty
/// and lead to that node; no two listed nodes are reached by the same
/// steps; and whatever a non-empty sequence of steps leads to is listed
/// with these steps.
pub proof fn lemma_flatten_lists_each_node_once(tree: Tree)
    requires
        tree.wf(),
    ensures
        flatten_spec(tree, seq![]) == located(seq![], true, nodes(tree)),
        forall|k: int|
            0 <= k < nodes(tree).len() ==> {
                &&& (#[trigger] nodes(tree)[k]).0.len() > 0
                &&& tree.navigate(nodes(tree)[k].0) == Some(nodes(tree)[k].1)
            },
        forall|j: int, k: int|
            0 <= j < k < nodes(tree).len() ==> (#[trigger] nodes(tree)[j]).0 != (
            #[trigger] nodes(tree)[k]).0,
        forall|steps: Seq<Step>|
            steps.len() > 0 && (#[trigger] tree.navigate(steps)) is Some ==> nodes(tree).contains(
                (steps, tree.navigate(steps)->0),
            ),
{
    assert forall|k: int| 0 <= k < nodes(tree).len() implies {
        &&& (#[trigger] nodes(tree)[k]).0.len() > 0
        &&& tree.navigate(nodes(tree)[k].0) == Some(nodes(tree)[k].1)
    } by {
        lemma_nodes_start(tree, tree.child_count(), k);
        lemma_nodes_lead(tree, tree.child_count(), k);
    }
    assert forall|j: int, k: int| 0 <= j < k < nodes(tree).len() implies (#[trigger] nodes(
        tree,
    )[j]).0 != (#[trigger] nodes(tree)[k]).0 by {
        lemma_nodes_distinct(tree, tree.child_count(), j, k);
    }
    assert forall|steps: Seq<Step>|
        steps.len() > 0 && (#[trigger] tree.navigate(steps)) is Some implies nodes(tree).contains(
        (steps, tree.navigate(steps)->0),
    ) by {
        lemma_nodes_complete(tree, steps);
    }
    assert(flatten_spec(tree, seq![]) =~= located(seq![], true, nodes(tree)));
}

/// The canonical form of a path is empty only for the empty path and for
/// the path of one empty key.
pub proof fn lemma_empty_path(steps: Seq<Step>)
    ensures
        encode_spec(steps).len() == 0 <==> (steps.len() == 0 || steps == seq![
            Step::Key(Seq::<char>::empty()),
        ]),
{
    if steps.len() > 0 {
        let text = step_text(steps.len() == 1, steps.last());
        assert(encode_spec(steps) == encode_spec(steps.drop_last()) + text);
        if steps.len() == 1 {
            assert(steps.drop_last() =~= Seq::<Step>::empty());
            assert(steps =~= seq![steps.last()]);
            match steps.last() {
                Step::Key(key) => {
                    if text.len() == 0 {
                        assert(key =~= Seq::<char>::empty());
                    }
                },
                Step::Index(_) => {},
            }
        } else {
            assert(text.len() > 0);
            assert(seq![Step::Key(Seq::<char>::empty())].len() == 1);
        }
    }
}

/// The flattener gives no entry with an empty path, but for the member of
/// the root object whose key is empty.
pub proof fn lemma_flattened_paths_not_empty(tree: Tree, k: int)
    requires
        0 <= k < nodes(tree).len(),
    ensures
        flatten_spec(tree, seq![]).len() == nodes(tree).len(),
        flatten_spec(tree, seq![])[k].0.len() == 0 <==> nodes(tree)[k].0 == seq![
            Step::Key(Seq::<char>::empty()),
        ],
{
    assert(flatten_spec(tree, seq![]) =~= located(seq![], true, nodes(tree)));
    lemma_nodes_start(tree, tree.child_count(), k);
    lemma_empty_path(nodes(tree)[k].0);
}

/// Every path that the flattener gives is stable: reading it and writing
/// what was read gives the same path, as long as the keys on the way are
/// safe, or the path is also the canonical form of a path whose steps are
/// safe.
pub proof fn lemma_flattened_path_round_trip(tree: Tree, k: int)
    requires
        tree.wf(),
        0 <= k < nodes(tree).len(),
        safe_keys(nodes(tree)[k].0) || exists|steps: Seq<Step>|
            safe_steps(steps) && #[trigger] encode_spec(steps) == encode_spec(nodes(tree)[k].0),
    ensures
        flatten_spec(tree, seq![]).len() == nodes(tree).len(),
        encode_spec(parse_spec(flatten_spec(tree, seq![])[k].0)) == flatten_spec(
            tree,
            seq![],
        )[k].0,
{
    assert(flatten_spec(tree, seq![]) =~= located(seq![], true, nodes(tree)));
    let own = nodes(tree)[k].0;
    if safe_keys(own) {
        lemma_nodes_lead(tree, tree.child_count(), k);
        assert(safe_steps(own));
        lemma_canonical_round_trip(own);
    } else {
        let steps = choose|steps: Seq<Step>|
            safe_steps(steps) && #[trigger] encode_spec(steps) == encode_spec(own);
        lemma_canonical_round_trip(steps);
    }
}

/// Looking up a path that the flattener gives finds the value that the
/// flattener recorded with it, as long as the keys on the way are safe.
pub proof fn lemma_lookup_finds_flattened(tree: Tree, k: int)
    requires
        tree.wf(),
        0 <= k < nodes(tree).len(),
        safe_keys(nodes(tree)[k].0),
    ensures
        flatten_spec(tree, seq![]).len() == nodes(tree).len(),
        lookup_spec(tree, flatten_spec(tree, seq![])[k].0) == Some(
            flatten_spec(tree, seq![])[k].1,
        ),
{
    assert(flatten_spec(tree, seq![]) =~= located(seq![], true, nodes(tree)));
    let steps = nodes(tree)[k].0;
    lemma_nodes_lead(tree, tree.child_count(), k);
    assert(safe_steps(steps));
    lemma_canonical_round_trip(steps);
}

/// Every well-formed value is deeply equal to itself.
pub proof fn lemma_deep_eq_reflexive(tree: Tree)
    requires
        tree.wf(),
    ensures
        deep_eq(tree, tree),
    decreases tree,
{
    match tree {
        Tree::Array(items) => {
            assert forall|i: int| 0 <= i < items.len() implies deep_eq(
                #[trigger] items[i],
                items[i],
            ) by {
                assert(decreases_to!(items => items[i]));
                lemma_deep_eq_reflexive(items[i]);
            }
        },
        Tree::Object(members) => {
            assert forall|i: int| 0 <= i < members.len() implies match tree.get(
                Step::Key((#[trigger] members[i]).0),
            ) {
                Some(other) => deep_eq(members[i].1, other),
                None => false,
            } by {
                lemma_first_match_unique(members, i, 0);
                assert(decreases_to!(members => members[i]));
                lemma_deep_eq_reflexive(members[i].1);
            }
        },
        _ => {},
    }
}

/// Every well-formed value is equal to itself as the comparison reports
/// it, a number as much as any other value.
pub proof fn lemma_values_equal_reflexive(tree: Tree)
    requires
        tree.wf(),
    ensures
        values_equal_spec(tree, tree),
{
    lemma_deep_eq_reflexive(tree);
    lemma_pow2_strictly_increases(968, 1022);
}

/// A well-formed document whose keys are all safe matches its own
/// entries: nothing is missing from it, nothing differs, and no type is
/// mismatched, whatever is checked.
pub proof fn lemma_document_matches_itself(tree: Tree, options: CompareOptions)
    requires
        tree.wf(),
        forall|k: int| 0 <= k < nodes(tree).len() ==> safe_keys(#[trigger] nodes(tree)[k].0),
    ensures
        compare_spec(flatten_spec(tree, seq![]), tree, options) == (Outcome {
            missing: seq![],
            different: seq![],
            mismatched: seq![],
        }),
{
    assert(flatten_spec(tree, seq![]) =~= located(seq![], true, nodes(tree)));
    lemma_entries_match(tree, options, flatten_spec(tree, seq![]).len());
}

/// The first `n` entries of a well-formed document whose keys are all
/// safe match that document.
proof fn lemma_entries_match(tree: Tree, options: CompareOptions, n: nat)
    requires
        tree.wf(),
        forall|k: int| 0 <= k < nodes(tree).len() ==> safe_keys(#[trigger] nodes(tree)[k].0),
        n <= nodes(tree).len(),
    ensures
        outcome_upto(flatten_spec(tree, seq![]), tree, options, n) == (Outcome {
            missing: seq![],
            different: seq![],
            mismatched: seq![],
        }),
    decreases n,
{
    assert(flatten_spec(tree, seq![]) =~= located(seq![], true, nodes(tree)));
    if n > 0 {
        lemma_entries_match(tree, options, (n - 1) as nat);
        lemma_lookup_finds_flattened(tree, n - 1);
        lemma_nodes_lead(tree, tree.child_count(), n - 1);
        lemma_values_equal_reflexive(nodes(tree)[n - 1].1);
    }
}

/// With suppression, no path reported missing has a strict prefix among
/// the paths reported before it.
pub proof fn lemma_missing_paths_are_topmost(
    base: Seq<(Seq<char>, Tree)>,
    tree: Tree,
    options: CompareOptions,
    n: nat,
    i: int,
    j: int,
)
    requires
        options.suppress_nested_missing,
        n <= base.len(),
        0 <= i < j < outcome_upto(base, tree, options, n).missing.len(),
    ensures
        !is_strict_prefix(
            outcome_upto(base, tree, options, n).missing[i],
            outcome_upto(base, tree, options, n).missing[j],
        ),
    decreases n,
{
    if n > 0 {
        let before = outcome_upto(base, tree, options, (n - 1) as nat);
        if j < before.missing.len() {
            lemma_missing_paths_are_topmost(base, tree, options, (n - 1) as nat, i, j);
        }
    }
}

/// Every path reported missing is the path of a base entry that leads
/// nowhere in the compared document, and without suppression every such
/// entry is reported.
pub proof fn lemma_missing_paths_lead_nowhere(
    base: Seq<(Seq<char>, Tree)>,
    tree: Tree,
    options: CompareOptions,
    n: nat,
)
    requires
        n <= base.len(),
    ensures
        forall|i: int|
            0 <= i < outcome_upto(base, tree, options, n).missing.len() ==> lookup_spec(
                tree,
                #[trigger] outcome_upto(base, tree, options, n).missing[i],
            ) is None,
        forall|k: int|
            0 <= k < n && !options.suppress_nested_missing && lookup_spec(
                tree,
                (#[trigger] base[k]).0,
            ) is None ==> outcome_upto(base, tree, options, n).missing.contains(base[k].0),
    decreases n,
{
    if n > 0 {
        let before = outcome_upto(base, tree, options, (n - 1) as nat);
        let now = outcome_upto(base, tree, options, n);
        lemma_missing_paths_lead_nowhere(base, tree, options, (n - 1) as nat);
        assert forall|k: int|
            0 <= k < n && !options.suppress_nested_missing && lookup_spec(
                tree,
                (#[trigger] base[k]).0,
            ) is None implies now.missing.contains(base[k].0) by {
            if k < n - 1 {
                let at = choose|at: int|
                    0 <= at < before.missing.len() && before.missing[at] == base[k].0;
                assert(now.missing[at] == base[k].0);
            } else {
                assert(now.missing[before.missing.len() as int] == base[k].0);
            }
        }
    }
}

} // verus!
