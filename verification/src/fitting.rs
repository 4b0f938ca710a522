//! Testing whether a value has the parts that a navigator goes to.

use vstd::prelude::*;

use crate::names::find;
use crate::navigator::{
    arm_nav_tree, case_names, case_nav_trees, fits, part_trees, parts_fit, NavTree, ValNavigator,
};
use crate::value::{field_trees, payload_tree, value_trees, Value, ValueTree};

verus! {

impl ValNavigator {
    /// Whether `value` has every field and element that this navigator goes to.
    pub fn fits_value(&self, value: &Value) -> (r: bool)
        ensures
            r == fits(self@, value@),
        decreases self, 0nat,
    {
        match self {
            ValNavigator::Handle(_) => true,
            ValNavigator::Record(parts) => match value {
                Value::Record(fields) => parts_fit_fields(parts, fields),
                _ => true,
            },
            ValNavigator::List(inner) => match value {
                Value::List(items) => fits_all(inner, items),
                _ => true,
            },
            ValNavigator::Tuple(parts) => match value {
                Value::Tuple(items) => parts_fit_items(parts, items),
                _ => true,
            },
            ValNavigator::Option(inner) => match value {
                Value::Option(Some(payload)) => inner.fits_value(payload),
                _ => true,
            },
            ValNavigator::Result(ok, err) => match value {
                Value::Result(Ok(Some(payload))) => match ok {
                    Some(inner) => {
                        assert(arm_nav_tree(*ok) == Some(Box::new(inner@)));
                        assert(payload_tree(Some(*payload)) == Some(Box::new(payload@)));
                        inner.fits_value(payload)
                    },
                    None => true,
                },
                Value::Result(Err(Some(payload))) => match err {
                    Some(inner) => {
                        assert(arm_nav_tree(*err) == Some(Box::new(inner@)));
                        assert(payload_tree(Some(*payload)) == Some(Box::new(payload@)));
                        inner.fits_value(payload)
                    },
                    None => true,
                },
                _ => true,
            },
            ValNavigator::Variant(cases) => match value {
                Value::Variant(case, Some(payload)) => case_fits(cases, case.as_str(), payload),
                _ => true,
            },
        }
    }
}

/// Whether the payload of the case `case` fits the navigator of that case.
fn case_fits(cases: &Vec<(String, Option<ValNavigator>)>, case: &str, payload: &Value) -> (r: bool)
    ensures
        r == fits(
            NavTree::Variant(case_nav_trees(cases@)),
            ValueTree::Variant(case@, Some(Box::new(payload@))),
        ),
    decreases cases, 0nat,
{
    proof {
        assert(crate::names::keys(cases@) =~= case_names(case_nav_trees(cases@)));
    }
    match find(cases, case) {
        Some(i) => match &cases[i].1 {
            Some(nav) => nav.fits_value(payload),
            None => true,
        },
        None => true,
    }
}

/// Whether all of `items` fit `inner`.
fn fits_all(inner: &ValNavigator, items: &Vec<Value>) -> (r: bool)
    ensures
        r == fits(NavTree::List(Box::new(inner@)), ValueTree::List(value_trees(items@))),
    decreases inner, 1nat,
{
    let ghost trees = value_trees(items@);
    let mut i: usize = 0;
    while i < items.len()
        invariant
            i <= items@.len(),
            trees == value_trees(items@),
            forall|j: int| 0 <= j < i ==> fits(inner@, #[trigger] trees[j]),
        decreases items.len() - i,
    {
        if !inner.fits_value(&items[i]) {
            assert(trees[i as int] == items@[i as int]@);
            proof {
                reveal_with_fuel(fits, 2);
                let list = ValueTree::List(trees);
                assert(list->List_0[i as int] == trees[i as int]);
                assert(!fits(inner@, list->List_0[i as int]));
            }
            return false;
        }
        i = i + 1;
    }
    true
}

/// Whether there is a field at each of the positions, which fits.
fn parts_fit_fields(parts: &Vec<(usize, ValNavigator)>, fields: &Vec<(String, Value)>) -> (r: bool)
    ensures
        r == parts_fit(part_trees(parts@), ValueTree::Record(field_trees(fields@))),
    decreases parts, 0nat,
{
    let ghost trees = part_trees(parts@);
    let ghost value = ValueTree::Record(field_trees(fields@));
    let mut i: usize = 0;
    while i < parts.len()
        invariant
            i <= parts@.len(),
            trees == part_trees(parts@),
            value == ValueTree::Record(field_trees(fields@)),
            forall|j: int|
                0 <= j < i ==> value.has_child((#[trigger] trees[j]).0) && fits(
                    trees[j].1,
                    value.child(trees[j].0),
                ),
        decreases parts.len() - i,
    {
        let at: usize = parts[i].0;
        assert(trees[i as int] == (parts@[i as int].0 as int, parts@[i as int].1@));
        if at >= fields.len() || !parts[i].1.fits_value(&fields[at].1) {
            return false;
        }
        i = i + 1;
    }
    true
}

/// Whether there is an element at each of the positions, which fits.
pub(crate) fn parts_fit_items(parts: &Vec<(usize, ValNavigator)>, items: &Vec<Value>) -> (r: bool)
    ensures
        r == parts_fit(part_trees(parts@), ValueTree::Tuple(value_trees(items@))),
    decreases parts, 0nat,
{
    let ghost trees = part_trees(parts@);
    let ghost value = ValueTree::Tuple(value_trees(items@));
    let mut i: usize = 0;
    while i < parts.len()
        invariant
            i <= parts@.len(),
            trees == part_trees(parts@),
            value == ValueTree::Tuple(value_trees(items@)),
            forall|j: int|
                0 <= j < i ==> value.has_child((#[trigger] trees[j]).0) && fits(
                    trees[j].1,
                    value.child(trees[j].0),
                ),
        decreases parts.len() - i,
    {
        let at: usize = parts[i].0;
        assert(trees[i as int] == (parts@[i as int].0 as int, parts@[i as int].1@));
        if at >= items.len() || !parts[i].1.fits_value(&items[at]) {
            return false;
        }
        i = i + 1;
    }
    true
}

} // verus!
