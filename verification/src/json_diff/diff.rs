//! The diff engine: which entries of a flattened base document are
//! missing from a second document, which differ in value, and which
//! differ in type.
use super::equal::{values_equal, values_equal_spec};
use super::flatten::entries_of;
use super::lookup::{get_value_by_path, lookup_spec};
use super::text::chars_of;
use super::value::{get_value_type, same_type, Tree, Value};
use vstd::prelude::*;

verus! {

/// What a comparison checks.
#[derive(Clone, Copy, Debug)]
pub struct CompareOptions {
    /// Compare the values found, not only the structure.
    pub check_values: bool,
    /// Compare only the type categories of the values found.  This has an
    /// effect only together with `check_values`.
    pub type_only: bool,
    /// Report a missing path only if no path reported before it is a
    /// strict prefix of it.
    pub suppress_nested_missing: bool,
}

/// A path at which the two documents hold different values.
#[derive(Debug)]
pub struct ValueDifference {
    pub path: String,
    pub base_value: Value,
    pub compare_value: Value,
}

/// A path at which the two documents hold values of different type
/// categories.
#[derive(Debug)]
pub struct TypeMismatch {
    pub path: String,
    pub base_type: String,
    pub compare_type: String,
    pub base_value: Value,
    pub compare_value: Value,
}

/// The counts of a comparison.
#[derive(Clone, Copy, Debug, PartialEq, Eq, Structural)]
pub struct Statistics {
    pub total_paths_checked: usize,
    pub missing_count: usize,
    pub different_count: usize,
    pub type_mismatch_count: usize,
    pub match_count: usize,
}

/// The outcome of comparing one document with the base document.
#[derive(Debug)]
pub struct ComparisonResult {
    pub missing_paths: Vec<String>,
    pub different_values: Vec<ValueDifference>,
    pub type_mismatches: Vec<TypeMismatch>,
    pub statistics: Statistics,
}

/// The model of a `ValueDifference`.
pub struct Difference {
    pub path: Seq<char>,
    pub base: Tree,
    pub compare: Tree,
}

/// The model of a `TypeMismatch`.
pub struct Mismatch {
    pub path: Seq<char>,
    pub base_type: Seq<char>,
    pub compare_type: Seq<char>,
    pub base: Tree,
    pub compare: Tree,
}

/// The three lists of a comparison.
pub struct Outcome {
    pub missing: Seq<Seq<char>>,
    pub different: Seq<Difference>,
    pub mismatched: Seq<Mismatch>,
}

impl View for ValueDifference {
    type V = Difference;

    open spec fn view(&self) -> Difference {
        Difference { path: self.path@, base: self.base_value@, compare: self.compare_value@ }
    }
}

impl View for TypeMismatch {
    type V = Mismatch;

    open spec fn view(&self) -> Mismatch {
        Mismatch {
            path: self.path@,
            base_type: self.base_type@,
            compare_type: self.compare_type@,
            base: self.base_value@,
            compare: self.compare_value@,
        }
    }
}

impl Clone for TypeMismatch {
    fn clone(&self) -> (copy: Self)
        ensures
            copy@ == self@,
    {
        TypeMismatch {
            path: self.path.clone(),
            base_type: self.base_type.clone(),
            compare_type: self.compare_type.clone(),
            base_value: self.base_value.clone(),
            compare_value: self.compare_value.clone(),
        }
    }
}

/// The models of a sequence of strings.
pub open spec fn texts_of(strings: Seq<String>) -> Seq<Seq<char>> {
    Seq::new(strings.len(), |i: int| strings[i]@)
}

/// The models of a sequence of value differences.
pub open spec fn differences_of(records: Seq<ValueDifference>) -> Seq<Difference> {
    Seq::new(records.len(), |i: int| records[i]@)
}

/// The models of a sequence of type mismatches.
pub open spec fn mismatches_of(records: Seq<TypeMismatch>) -> Seq<Mismatch> {
    Seq::new(records.len(), |i: int| records[i]@)
}

impl View for ComparisonResult {
    type V = Outcome;

    open spec fn view(&self) -> Outcome {
        Outcome {
            missing: texts_of(self.missing_paths@),
            different: differences_of(self.different_values@),
            mismatched: mismatches_of(self.type_mismatches@),
        }
    }
}

/// Whether `prefix` opens `s` and is shorter than `s`.
pub open spec fn is_strict_prefix(prefix: Seq<char>, s: Seq<char>) -> bool {
    prefix.len() < s.len() && s.subrange(0, prefix.len() as int) == prefix
}

/// Whether one of the paths in `missing` is a strict prefix of `path`.
pub open spec fn parent_missing_spec(missing: Seq<Seq<char>>, path: Seq<char>) -> bool {
    exists|i: int| 0 <= i < missing.len() && is_strict_prefix(#[trigger] missing[i], path)
}

/// Whether `prefix` opens `s` and is shorter than `s`.
fn strict_prefix(prefix: &Vec<char>, s: &Vec<char>) -> (holds: bool)
    ensures
        holds == is_strict_prefix(prefix@, s@),
{
    if prefix.len() >= s.len() {
        return false;
    }
    let mut i: usize = 0;
    while i < prefix.len()
        invariant
            i <= prefix.len() < s.len(),
            s@.subrange(0, i as int) == prefix@.subrange(0, i as int),
        decreases prefix.len() - i,
    {
        if prefix[i] != s[i] {
            assert(s@.subrange(0, prefix.len() as int)[i as int] != prefix@[i as int]);
            return false;
        }
        assert(s@.subrange(0, i + 1) =~= s@.subrange(0, i as int).push(s@[i as int]));
        assert(prefix@.subrange(0, i + 1) =~= prefix@.subrange(0, i as int).push(prefix@[i as int]));
        i += 1;
    }
    assert(prefix@.subrange(0, i as int) =~= prefix@);
    true
}

/// Whether one of the paths already reported missing is a strict prefix
/// of `path`.
pub fn is_parent_missing(missing_paths: &[String], path: &str) -> (missing: bool)
    ensures
        missing == parent_missing_spec(texts_of(missing_paths@), path@),
{
    let chars = chars_of(path);
    let mut i: usize = 0;
    while i < missing_paths.len()
        invariant
            i <= missing_paths.len(),
            chars@ == path@,
            forall|j: int|
                0 <= j < i ==> !is_strict_prefix(#[trigger] texts_of(missing_paths@)[j], path@),
        decreases missing_paths.len() - i,
    {
        let candidate = chars_of(missing_paths[i].as_str());
        if strict_prefix(&candidate, &chars) {
            assert(is_strict_prefix(texts_of(missing_paths@)[i as int], path@));
            return true;
        }
        i += 1;
    }
    false
}

/// The three lists after the first `n` base entries have been checked
/// against `tree`, each list in the order of the base entries.
///
/// An entry whose path leads nowhere in `tree` is missing; with
/// `suppress_nested_missing` it is reported only if no path reported
/// missing before it is a strict prefix of its path.  An entry whose path
/// leads to a value is checked only with `check_values`: with `type_only`
/// it is reported as a type mismatch when the two values differ in type
/// category; without, as a value difference when the two values are not
/// equal.
pub open spec fn outcome_upto(
    base: Seq<(Seq<char>, Tree)>,
    tree: Tree,
    options: CompareOptions,
    n: nat,
) -> Outcome
    decreases n,
{
    if n == 0 || n > base.len() {
        Outcome { missing: seq![], different: seq![], mismatched: seq![] }
    } else {
        let before = outcome_upto(base, tree, options, (n - 1) as nat);
        let path = base[n - 1].0;
        let value = base[n - 1].1;
        match lookup_spec(tree, path) {
            None => {
                if options.suppress_nested_missing && parent_missing_spec(before.missing, path) {
                    before
                } else {
                    Outcome { missing: before.missing.push(path), ..before }
                }
            },
            Some(found) => {
                if !options.check_values {
                    before
                } else if options.type_only {
                    if value.category() != found.category() {
                        Outcome {
                            mismatched: before.mismatched.push(
                                Mismatch {
                                    path,
                                    base_type: value.tag(),
                                    compare_type: found.tag(),
                                    base: value,
                                    compare: found,
                                },
                            ),
                            ..before
                        }
                    } else {
                        before
                    }
                } else {
                    if !values_equal_spec(value, found) {
                        Outcome {
                            different: before.different.push(
                                Difference { path, base: value, compare: found },
                            ),
                            ..before
                        }
                    } else {
                        before
                    }
                }
            },
        }
    }
}

/// The three lists of the comparison of `tree` with the base entries.
pub open spec fn compare_spec(
    base: Seq<(Seq<char>, Tree)>,
    tree: Tree,
    options: CompareOptions,
) -> Outcome {
    outcome_upto(base, tree, options, base.len())
}

/// The counts that belong to the three lists of a comparison of `total`
/// base entries.  An entry counts as a match unless it is missing or
/// differs in value: a type mismatch still counts as a match.
pub open spec fn statistics_spec(outcome: Outcome, total: nat) -> Statistics {
    Statistics {
        total_paths_checked: total as usize,
        missing_count: outcome.missing.len() as usize,
        different_count: outcome.different.len() as usize,
        type_mismatch_count: outcome.mismatched.len() as usize,
        match_count: (total - outcome.missing.len() - outcome.different.len()) as usize,
    }
}

/// Compares the document `compare_json` with the entries of a flattened
/// base document.
pub fn compare(base_items: &[(String, Value)], compare_json: &Value, options: &CompareOptions) -> (result:
    ComparisonResult)
    ensures
        result@ == compare_spec(entries_of(base_items@), compare_json@, *options),
        result.statistics == statistics_spec(result@, base_items@.len()),
        result@.missing.len() + result@.different.len() <= base_items@.len(),
{
    let mut missing_paths: Vec<String> = Vec::new();
    let mut different_values: Vec<ValueDifference> = Vec::new();
    let mut type_mismatches: Vec<TypeMismatch> = Vec::new();
    let ghost base = entries_of(base_items@);
    let ghost tree = compare_json@;
    let mut i: usize = 0;
    assert(texts_of(missing_paths@) =~= seq![]);
    assert(differences_of(different_values@) =~= seq![]);
    assert(mismatches_of(type_mismatches@) =~= seq![]);
    while i < base_items.len()
        invariant
            i <= base_items.len(),
            base == entries_of(base_items@),
            tree == compare_json@,
            missing_paths.len() + different_values.len() <= i,
            type_mismatches.len() <= i,
            outcome_upto(base, tree, *options, i as nat) == (Outcome {
                missing: texts_of(missing_paths@),
                different: differences_of(different_values@),
                mismatched: mismatches_of(type_mismatches@),
            }),
        decreases base_items.len() - i,
    {
        let path = &base_items[i].0;
        let base_value = &base_items[i].1;
        let ghost before = outcome_upto(base, tree, *options, i as nat);
        assert(base[i as int] == (path@, base_value@));
        match get_value_by_path(compare_json, path.as_str()) {
            None => {
                if !options.suppress_nested_missing || !is_parent_missing(
                    missing_paths.as_slice(),
                    path.as_str(),
                ) {
                    missing_paths.push(path.clone());
                    assert(texts_of(missing_paths@) =~= before.missing.push(path@));
                }
            },
            Some(compare_value) => {
                if options.check_values {
                    if options.type_only {
                        if !same_type(base_value, compare_value) {
                            type_mismatches.push(
                                TypeMismatch {
                                    path: path.clone(),
                                    base_type: get_value_type(base_value),
                                    compare_type: get_value_type(compare_value),
                                    base_value: base_value.clone(),
                                    compare_value: compare_value.clone(),
                                },
                            );
                            assert(mismatches_of(type_mismatches@) =~= before.mismatched.push(
                                Mismatch {
                                    path: path@,
                                    base_type: base_value@.tag(),
                                    compare_type: compare_value@.tag(),
                                    base: base_value@,
                                    compare: compare_value@,
                                },
                            ));
                        }
                    } else {
                        if !values_equal(base_value, compare_value) {
                            different_values.push(
                                ValueDifference {
                                    path: path.clone(),
                                    base_value: base_value.clone(),
                                    compare_value: compare_value.clone(),
                                },
                            );
                            assert(differences_of(different_values@) =~= before.different.push(
                                Difference {
                                    path: path@,
                                    base: base_value@,
                                    compare: compare_value@,
                                },
                            ));
                        }
                    }
                }
            },
        }
        i += 1;
    }
    let statistics = Statistics {
        total_paths_checked: base_items.len(),
        missing_count: missing_paths.len(),
        different_count: different_values.len(),
        type_mismatch_count: type_mismatches.len(),
        match_count: base_items.len() - missing_paths.len() - different_values.len(),
    };
    ComparisonResult { missing_paths, different_values, type_mismatches, statistics }
}

} // verus!
