//! Navigators: compiled paths to the resource handles of the values of a type.

use vstd::prelude::*;
use wasmtime::component::{ResourceAny, ResourceType};

use crate::error::VisitError;
use crate::names::{find, keys, position};
use crate::value::{
    all_under, are_in, field_trees, lemma_are_in_under, lemma_handles_append,
    lemma_handles_prefix, lemma_handles_under, lemma_other_child, part_at, value_trees,
    with_handles, Leaf, Value, ValueTree,
};
use crate::visitor::{
    handles_left, lemma_visited_failed, lemma_visited_more, lemma_visited_nothing,
    lemma_visited_one, lemma_visited_under, new_visits, visited, ValVisitor,
};

verus! {

/// A compiled path through the values of a type to the resource handles in
/// them. Parts of the type that hold no handle are left out.
pub enum ValNavigator {
    /// The value is a handle to a resource of this type.
    Handle(ResourceType),
    /// Fields of a record, by position.
    Record(Vec<(usize, ValNavigator)>),
    /// Every element of a list.
    List(Box<ValNavigator>),
    /// Elements of a tuple, by position.
    Tuple(Vec<(usize, ValNavigator)>),
    /// The payload of an option.
    Option(Box<ValNavigator>),
    /// The payloads of a result, for success and for failure.
    Result(Option<Box<ValNavigator>>, Option<Box<ValNavigator>>),
    /// The payloads of the cases of a variant, by name.
    Variant(Vec<(String, Option<ValNavigator>)>),
}

/// The mathematical view of a [`ValNavigator`].
pub enum NavTree {
    Handle(ResourceType),
    Record(Seq<(int, NavTree)>),
    List(Box<NavTree>),
    Tuple(Seq<(int, NavTree)>),
    Option(Box<NavTree>),
    Result(Option<Box<NavTree>>, Option<Box<NavTree>>),
    Variant(Seq<(Seq<char>, Option<NavTree>)>),
}

/// The views of navigators with their positions.
pub open spec fn part_trees(parts: Seq<(usize, ValNavigator)>) -> Seq<(int, NavTree)>
    decreases parts,
{
    Seq::new(
        parts.len(),
        |i: int|
            if 0 <= i < parts.len() {
                (parts[i].0 as int, parts[i].1.tree())
            } else {
                arbitrary()
            },
    )
}

/// The views of the navigators of the cases of a variant.
pub open spec fn case_nav_trees(cases: Seq<(String, Option<ValNavigator>)>) -> Seq<
    (Seq<char>, Option<NavTree>),
>
    decreases cases,
{
    Seq::new(
        cases.len(),
        |i: int|
            if 0 <= i < cases.len() {
                (
                    cases[i].0@,
                    match cases[i].1 {
                        Some(nav) => Some(nav.tree()),
                        None => None,
                    },
                )
            } else {
                arbitrary()
            },
    )
}

/// The view of the navigator of an arm of a result.
pub open spec fn arm_nav_tree(arm: Option<Box<ValNavigator>>) -> Option<Box<NavTree>>
    decreases arm,
{
    match arm {
        Some(nav) => Some(Box::new(nav.tree())),
        None => None,
    }
}

impl ValNavigator {
    /// The tree that this navigator stands for.
    pub open spec fn tree(self) -> NavTree
        decreases self,
    {
        match self {
            ValNavigator::Handle(ty) => NavTree::Handle(ty),
            ValNavigator::Record(parts) => NavTree::Record(part_trees(parts@)),
            ValNavigator::List(inner) => NavTree::List(Box::new(inner.tree())),
            ValNavigator::Tuple(parts) => NavTree::Tuple(part_trees(parts@)),
            ValNavigator::Option(inner) => NavTree::Option(Box::new(inner.tree())),
            ValNavigator::Result(ok, err) => NavTree::Result(arm_nav_tree(ok), arm_nav_tree(err)),
            ValNavigator::Variant(cases) => NavTree::Variant(case_nav_trees(cases@)),
        }
    }
}

impl View for ValNavigator {
    type V = NavTree;

    open spec fn view(&self) -> NavTree {
        self.tree()
    }
}

/// The view of a navigator that may be missing.
pub open spec fn optional_nav_tree(nav: Option<ValNavigator>) -> Option<NavTree> {
    match nav {
        Some(nav) => Some(nav.tree()),
        None => None,
    }
}

// ---------------------------------------------------------------------------
// Which handles a navigator leads to
// ---------------------------------------------------------------------------

/// The names of the cases of a variant.
pub open spec fn case_names<T>(cases: Seq<(Seq<char>, T)>) -> Seq<Seq<char>> {
    cases.map_values(|case: (Seq<char>, T)| case.0)
}

/// The handles of `value` that `nav` leads to, in the order of the value.
pub open spec fn leaves(nav: NavTree, value: ValueTree) -> Seq<Leaf>
    decreases nav, 0nat,
{
    match nav {
        NavTree::Handle(ty) => match value {
            ValueTree::Resource(handle) => seq![Leaf { path: Seq::empty(), handle, ty }],
            _ => Seq::empty(),
        },
        NavTree::Record(parts) => if value is Record {
            part_leaves(parts, value)
        } else {
            Seq::empty()
        },
        NavTree::List(inner) => match value {
            ValueTree::List(items) => item_leaves(*inner, items),
            _ => Seq::empty(),
        },
        NavTree::Tuple(parts) => if value is Tuple {
            part_leaves(parts, value)
        } else {
            Seq::empty()
        },
        NavTree::Option(inner) => match value {
            ValueTree::Option(Some(payload)) => all_under(0, leaves(*inner, *payload)),
            _ => Seq::empty(),
        },
        NavTree::Result(ok, err) => match value {
            ValueTree::Result(Ok(Some(payload))) => match ok {
                Some(inner) => all_under(0, leaves(*inner, *payload)),
                None => Seq::empty(),
            },
            ValueTree::Result(Err(Some(payload))) => match err {
                Some(inner) => all_under(0, leaves(*inner, *payload)),
                None => Seq::empty(),
            },
            _ => Seq::empty(),
        },
        NavTree::Variant(cases) => match value {
            ValueTree::Variant(case, Some(payload)) => match position(case_names(cases), case) {
                Some(i) => if 0 <= i < cases.len() && cases[i].1 is Some {
                    all_under(0, leaves(cases[i].1->0, *payload))
                } else {
                    Seq::empty()
                },
                None => Seq::empty(),
            },
            _ => Seq::empty(),
        },
    }
}

/// The handles of the parts of `value` at the positions of `parts`.
pub open spec fn part_leaves(parts: Seq<(int, NavTree)>, value: ValueTree) -> Seq<Leaf>
    decreases parts, 0nat,
{
    if parts.len() == 0 {
        Seq::empty()
    } else {
        part_leaves(parts.drop_last(), value) + all_under(
            parts.last().0,
            leaves(parts.last().1, value.child(parts.last().0)),
        )
    }
}

/// The handles of the elements of a list.
pub open spec fn item_leaves(inner: NavTree, items: Seq<ValueTree>) -> Seq<Leaf>
    decreases inner, 1 + items.len(),
{
    if items.len() == 0 {
        Seq::empty()
    } else {
        item_leaves(inner, items.drop_last()) + all_under(
            items.len() - 1,
            leaves(inner, items.last()),
        )
    }
}

/// `value` has every field and element that `nav` goes to. A record or tuple of
/// the navigator's type has.
pub open spec fn fits(nav: NavTree, value: ValueTree) -> bool
    decreases nav,
{
    match nav {
        NavTree::Handle(_) => true,
        NavTree::Record(parts) => value is Record ==> parts_fit(parts, value),
        NavTree::List(inner) => value matches ValueTree::List(items) ==> forall|i: int|
            0 <= i < items.len() ==> fits(*inner, #[trigger] items[i]),
        NavTree::Tuple(parts) => value is Tuple ==> parts_fit(parts, value),
        NavTree::Option(inner) => value matches ValueTree::Option(Some(payload)) ==> fits(
            *inner,
            *payload,
        ),
        NavTree::Result(ok, err) => match value {
            ValueTree::Result(Ok(Some(payload))) => ok matches Some(inner) ==> fits(
                *inner,
                *payload,
            ),
            ValueTree::Result(Err(Some(payload))) => err matches Some(inner) ==> fits(
                *inner,
                *payload,
            ),
            _ => true,
        },
        NavTree::Variant(cases) => value matches ValueTree::Variant(case, Some(payload)) ==> (
        position(case_names(cases), case) matches Some(i) ==> (0 <= i < cases.len()
            && cases[i].1 is Some ==> fits(cases[i].1->0, *payload))),
    }
}

/// `value` has a part at every position of `parts`, and these have theirs.
pub open spec fn parts_fit(parts: Seq<(int, NavTree)>, value: ValueTree) -> bool
    decreases parts,
{
    forall|i: int|
        0 <= i < parts.len() ==> value.has_child((#[trigger] parts[i]).0) && fits(
            parts[i].1,
            value.child(parts[i].0),
        )
}

/// No position occurs twice among the parts of a record or tuple.
pub open spec fn well_formed(nav: NavTree) -> bool
    decreases nav,
{
    match nav {
        NavTree::Handle(_) => true,
        NavTree::Record(parts) => parts_well_formed(parts),
        NavTree::List(inner) => well_formed(*inner),
        NavTree::Tuple(parts) => parts_well_formed(parts),
        NavTree::Option(inner) => well_formed(*inner),
        NavTree::Result(ok, err) => (ok matches Some(inner) ==> well_formed(*inner)) && (
        err matches Some(inner) ==> well_formed(*inner)),
        NavTree::Variant(cases) => forall|i: int|
            0 <= i < cases.len() && (#[trigger] cases[i]).1 is Some ==> well_formed(cases[i].1->0),
    }
}

/// The positions increase, and the navigators at them are well formed.
pub open spec fn parts_well_formed(parts: Seq<(int, NavTree)>) -> bool
    decreases parts,
{
    &&& forall|i: int| 0 <= i < parts.len() ==> well_formed((#[trigger] parts[i]).1)
    &&& forall|i: int, j: int|
        0 <= i < j < parts.len() ==> (#[trigger] parts[i]).0 < (#[trigger] parts[j]).0
}

/// A navigator leads to handles of the value, at the places where they are.
pub proof fn leaves_are_in_the_value(nav: NavTree, value: ValueTree)
    requires
        fits(nav, value),
    ensures
        are_in(leaves(nav, value), value),
    decreases nav, 0nat,
{
    match nav {
        NavTree::Handle(_) => {},
        NavTree::Record(parts) => {
            if value is Record {
                lemma_parts_are_in(parts, value);
            }
        },
        NavTree::List(inner) => {
            if let ValueTree::List(items) = value {
                assert forall|i: int| 0 <= i < items.len() implies fits(
                    *inner,
                    #[trigger] items[i],
                ) by {
                    reveal_with_fuel(fits, 2);
                }
                lemma_items_are_in(*inner, items, items.len() as int);
                assert(items.take(items.len() as int) =~= items);
            }
        },
        NavTree::Tuple(parts) => {
            if value is Tuple {
                lemma_parts_are_in(parts, value);
            }
        },
        NavTree::Option(inner) => {
            if let ValueTree::Option(Some(payload)) = value {
                leaves_are_in_the_value(*inner, *payload);
                lemma_are_in_under(value, 0, leaves(*inner, *payload));
            }
        },
        NavTree::Result(ok, err) => match value {
            ValueTree::Result(Ok(Some(payload))) => {
                if let Some(inner) = ok {
                    leaves_are_in_the_value(*inner, *payload);
                    lemma_are_in_under(value, 0, leaves(*inner, *payload));
                }
            },
            ValueTree::Result(Err(Some(payload))) => {
                if let Some(inner) = err {
                    leaves_are_in_the_value(*inner, *payload);
                    lemma_are_in_under(value, 0, leaves(*inner, *payload));
                }
            },
            _ => {},
        },
        NavTree::Variant(cases) => {
            if let ValueTree::Variant(case, Some(payload)) = value {
                if let Some(i) = position(case_names(cases), case) {
                    if 0 <= i < cases.len() && cases[i].1 is Some {
                        leaves_are_in_the_value(cases[i].1->0, *payload);
                        lemma_are_in_under(value, 0, leaves(cases[i].1->0, *payload));
                    }
                }
            }
        },
    }
}

pub(crate) proof fn lemma_parts_are_in(parts: Seq<(int, NavTree)>, value: ValueTree)
    requires
        parts_fit(parts, value),
    ensures
        are_in(part_leaves(parts, value), value),
    decreases parts, 0nat,
{
    if parts.len() > 0 {
        let init = parts.drop_last();
        let last = parts.last();
        assert(parts[parts.len() - 1] == last);
        assert(parts_fit(init, value)) by {
            assert(forall|i: int| 0 <= i < init.len() ==> init[i] == parts[i]);
        }
        lemma_parts_are_in(init, value);
        leaves_are_in_the_value(last.1, value.child(last.0));
        lemma_are_in_under(value, last.0, leaves(last.1, value.child(last.0)));
        lemma_are_in_append(
            part_leaves(init, value),
            all_under(last.0, leaves(last.1, value.child(last.0))),
            value,
        );
    }
}

proof fn lemma_items_are_in(inner: NavTree, items: Seq<ValueTree>, n: int)
    requires
        0 <= n <= items.len(),
        forall|i: int| 0 <= i < items.len() ==> fits(inner, #[trigger] items[i]),
    ensures
        are_in(item_leaves(inner, items.take(n)), ValueTree::List(items)),
    decreases inner, 1 + n,
{
    if n > 0 {
        let value = ValueTree::List(items);
        lemma_items_are_in(inner, items, n - 1);
        assert(items.take(n).drop_last() =~= items.take(n - 1));
        leaves_are_in_the_value(inner, items[n - 1]);
        lemma_are_in_under(value, n - 1, leaves(inner, items[n - 1]));
        lemma_are_in_append(
            item_leaves(inner, items.take(n - 1)),
            all_under(n - 1, leaves(inner, items[n - 1])),
            value,
        );
    }
}

proof fn lemma_are_in_append(a: Seq<Leaf>, b: Seq<Leaf>, value: ValueTree)
    requires
        are_in(a, value),
        are_in(b, value),
    ensures
        are_in(a + b, value),
{
    assert forall|i: int| 0 <= i < (a + b).len() implies part_at(
        value,
        (#[trigger] (a + b)[i]).path,
    ) == Some(ValueTree::Resource((a + b)[i].handle)) by {
        if i < a.len() {
            assert((a + b)[i] == a[i]);
        } else {
            assert((a + b)[i] == b[i - a.len()]);
        }
    }
}

// ---------------------------------------------------------------------------
// Going there
// ---------------------------------------------------------------------------

/// What going through `value` with a navigator to `places` does: the visitor is
/// called on each of them in order, up to the first failure, and the value then
/// holds at each place the handle that the visitor left, and is otherwise
/// unchanged.
pub open spec fn navigated<W: ValVisitor<ResourceAny>>(
    places: Seq<Leaf>,
    value: ValueTree,
    new_value: ValueTree,
    visitor: W,
    new_visitor: W,
    outcome: Result<(), VisitError>,
) -> bool {
    &&& visited(visitor, new_visitor, places, outcome)
    &&& new_value == with_handles(
        value,
        places,
        handles_left(new_visits(visitor, new_visitor)),
    )
}

pub(crate) proof fn lemma_navigated_nothing<W: ValVisitor<ResourceAny>>(
    value: ValueTree,
    visitor: W,
)
    ensures
        navigated(Seq::empty(), value, value, visitor, visitor, Ok(())),
{
    lemma_visited_nothing(visitor);
    assert(handles_left(Seq::empty()) =~= Seq::empty());
}

/// Going through a part of a value is going through the value.
pub(crate) proof fn lemma_navigated_under<W: ValVisitor<ResourceAny>>(
    places: Seq<Leaf>,
    value: ValueTree,
    k: int,
    new_part: ValueTree,
    visitor: W,
    new_visitor: W,
    outcome: Result<(), VisitError>,
)
    requires
        value.has_child(k),
        navigated(places, value.child(k), new_part, visitor, new_visitor, outcome),
    ensures
        navigated(
            all_under(k, places),
            value,
            value.with_child(k, new_part),
            visitor,
            new_visitor,
            outcome,
        ),
{
    lemma_visited_under(visitor, new_visitor, places, outcome, k);
    lemma_handles_under(value, k, places, handles_left(new_visits(visitor, new_visitor)));
}

/// Going on where a first round ended.
pub(crate) proof fn lemma_navigated_more<W: ValVisitor<ResourceAny>>(
    first: Seq<Leaf>,
    second: Seq<Leaf>,
    a: ValueTree,
    b: ValueTree,
    c: ValueTree,
    u: W,
    v: W,
    w: W,
    outcome: Result<(), VisitError>,
)
    requires
        navigated(first, a, b, u, v, Ok(())),
        navigated(second, b, c, v, w, outcome),
    ensures
        navigated(first + second, a, c, u, w, outcome),
{
    lemma_visited_more(u, v, w, first, second, outcome);
    lemma_handles_append(
        a,
        first,
        second,
        handles_left(new_visits(u, v)),
        handles_left(new_visits(v, w)),
    );
}

/// After a failure the places that follow stay as they are.
pub(crate) proof fn lemma_navigated_failed<W: ValVisitor<ResourceAny>>(
    first: Seq<Leaf>,
    second: Seq<Leaf>,
    a: ValueTree,
    b: ValueTree,
    u: W,
    v: W,
    outcome: Result<(), VisitError>,
)
    requires
        navigated(first, a, b, u, v, outcome),
        outcome is Err,
    ensures
        navigated(first + second, a, b, u, v, outcome),
{
    lemma_visited_failed(u, v, first, second, outcome);
    lemma_handles_prefix(a, first, second, handles_left(new_visits(u, v)));
}

impl ValNavigator {
    /// Shows every handle that this navigator leads to in `value` to `visitor`,
    /// which may replace it, and stops at the first one that it refuses.
    pub fn navigate<W: ValVisitor<ResourceAny>>(&self, value: &mut Value, visitor: &mut W) -> (r:
        Result<(), VisitError>)
        requires
            well_formed(self@),
            fits(self@, old(value)@),
        ensures
            navigated(
                leaves(self@, old(value)@),
                old(value)@,
                final(value)@,
                *old(visitor),
                *final(visitor),
                r,
            ),
        decreases self, 0nat,
    {
        let ghost before = value@;
        let ghost start = *visitor;
        proof {
            lemma_navigated_nothing(before, start);
        }
        match self {
            ValNavigator::Handle(ty) => {
                if let Value::Resource(handle) = value {
                    let r = visitor.visit(handle, *ty);
                    assert(value@ == ValueTree::Resource(*handle));
                    proof {
                        let visit = visitor.trace().last();
                        let leaf = Leaf { path: Seq::empty(), handle: before->Resource_0, ty: *ty };
                        lemma_visited_one(start, *visitor, leaf, visit);
                        let handles = handles_left(new_visits(start, *visitor));
                        assert(handles =~= seq![visit.after]);
                        assert(handles.drop_last() =~= Seq::empty());
                        reveal_with_fuel(with_handles, 2);
                    }
                    r
                } else {
                    Ok(())
                }
            },
            ValNavigator::Record(parts) => {
                if let Value::Record(fields) = value {
                    assert(before == ValueTree::Record(field_trees(fields@)));
                    navigate_fields(parts, fields, visitor)
                } else {
                    Ok(())
                }
            },
            ValNavigator::List(inner) => {
                if let Value::List(items) = value {
                    assert(before == ValueTree::List(value_trees(items@)));
                    navigate_list(inner, items, visitor)
                } else {
                    Ok(())
                }
            },
            ValNavigator::Tuple(parts) => {
                if let Value::Tuple(items) = value {
                    assert(before == ValueTree::Tuple(value_trees(items@)));
                    navigate_parts(parts, items, visitor)
                } else {
                    Ok(())
                }
            },
            ValNavigator::Option(inner) => {
                if let Value::Option(Some(payload)) = value {
                    let ghost part = payload@;
                    let r = inner.navigate(payload, visitor);
                    proof {
                        let places = leaves(inner@, part);
                        lemma_navigated_under(places, before, 0, payload@, start, *visitor, r);
                    }
                    r
                } else {
                    Ok(())
                }
            },
            ValNavigator::Result(ok, err) => {
                match value {
                    Value::Result(Ok(Some(payload))) => {
                        if let Some(inner) = ok {
                            let ghost part = payload@;
                            assert(arm_nav_tree(*ok) == Some(Box::new(inner@)));
                            let r = inner.navigate(payload, visitor);
                            proof {
                                let places = leaves(inner@, part);
                                lemma_navigated_under(
                                    places,
                                    before,
                                    0,
                                    payload@,
                                    start,
                                    *visitor,
                                    r,
                                );
                            }
                            r
                        } else {
                            Ok(())
                        }
                    },
                    Value::Result(Err(Some(payload))) => {
                        if let Some(inner) = err {
                            let ghost part = payload@;
                            assert(arm_nav_tree(*err) == Some(Box::new(inner@)));
                            let r = inner.navigate(payload, visitor);
                            proof {
                                let places = leaves(inner@, part);
                                lemma_navigated_under(
                                    places,
                                    before,
                                    0,
                                    payload@,
                                    start,
                                    *visitor,
                                    r,
                                );
                            }
                            r
                        } else {
                            Ok(())
                        }
                    },
                    _ => Ok(()),
                }
            },
            ValNavigator::Variant(cases) => {
                if let Value::Variant(case, Some(payload)) = value {
                    let ghost part = payload@;
                    let found = find(cases, case.as_str());
                    assert(keys(cases@) =~= case_names(case_nav_trees(cases@)));
                    if let Some(i) = found {
                        if let Some(inner) = &cases[i].1 {
                            assert(case_nav_trees(cases@)[i as int].1 == Some(inner@));
                            let r = inner.navigate(payload, visitor);
                            proof {
                                let places = leaves(inner@, part);
                                lemma_navigated_under(
                                    places,
                                    before,
                                    0,
                                    payload@,
                                    start,
                                    *visitor,
                                    r,
                                );
                            }
                            r
                        } else {
                            Ok(())
                        }
                    } else {
                        Ok(())
                    }
                } else {
                    Ok(())
                }
            },
        }
    }
}

/// Goes through the elements of a list.
fn navigate_list<W: ValVisitor<ResourceAny>>(
    inner: &ValNavigator,
    items: &mut Vec<Value>,
    visitor: &mut W,
) -> (r: Result<(), VisitError>)
    requires
        well_formed(inner@),
        forall|i: int|
            0 <= i < old(items)@.len() ==> fits(inner@, #[trigger] value_trees(old(items)@)[i]),
    ensures
        navigated(
            item_leaves(inner@, value_trees(old(items)@)),
            ValueTree::List(value_trees(old(items)@)),
            ValueTree::List(value_trees(final(items)@)),
            *old(visitor),
            *final(visitor),
            r,
        ),
    decreases inner, 1nat,
{
    let ghost trees = value_trees(items@);
    let ghost before = ValueTree::List(trees);
    let ghost start = *visitor;
    proof {
        lemma_navigated_nothing(before, start);
        assert(trees.take(0) =~= Seq::empty());
    }
    let mut i: usize = 0;
    while i < items.len()
        invariant
            i <= items@.len() == trees.len(),
            trees == value_trees(old(items)@),
            before == ValueTree::List(trees),
            start == *old(visitor),
            well_formed(inner@),
            forall|j: int| i <= j < items@.len() ==> (#[trigger] items@[j])@ == trees[j],
            forall|j: int| 0 <= j < trees.len() ==> fits(inner@, #[trigger] trees[j]),
            navigated(
                item_leaves(inner@, trees.take(i as int)),
                before,
                ValueTree::List(value_trees(items@)),
                start,
                *visitor,
                Ok(()),
            ),
        decreases items.len() - i,
    {
        let ghost now = ValueTree::List(value_trees(items@));
        let ghost middle = *visitor;
        let ghost done = item_leaves(inner@, trees.take(i as int));
        let ghost places = leaves(inner@, trees[i as int]);
        proof {
            assert(trees.take(i + 1).drop_last() =~= trees.take(i as int));
        }
        let r = inner.navigate(&mut items[i], visitor);
        proof {
            let next = ValueTree::List(value_trees(items@));
            assert(next == now.with_child(i as int, items@[i as int]@)) by {
                assert(value_trees(items@) =~= now->List_0.update(i as int, items@[i as int]@));
            }
            lemma_navigated_under(places, now, i as int, items@[i as int]@, middle, *visitor, r);
            lemma_navigated_more(
                done,
                all_under(i as int, places),
                before,
                now,
                next,
                start,
                middle,
                *visitor,
                r,
            );
            if r is Err {
                lemma_item_leaves_split(inner@, trees, i + 1);
                let rest = choose|rest: Seq<Leaf>|
                    item_leaves(inner@, trees) == #[trigger] (item_leaves(inner@, trees.take(i + 1))
                        + rest);
                lemma_navigated_failed(
                    item_leaves(inner@, trees.take(i + 1)),
                    rest,
                    before,
                    next,
                    start,
                    *visitor,
                    r,
                );
            }
        }
        if r.is_err() {
            return r;
        }
        i = i + 1;
    }
    assert(trees.take(trees.len() as int) =~= trees);
    Ok(())
}

proof fn lemma_item_leaves_split(inner: NavTree, items: Seq<ValueTree>, n: int)
    requires
        0 <= n <= items.len(),
    ensures
        exists|rest: Seq<Leaf>|
            item_leaves(inner, items) == #[trigger] (item_leaves(inner, items.take(n)) + rest),
    decreases items.len(),
{
    if n == items.len() {
        assert(items.take(n) =~= items);
        assert(item_leaves(inner, items) =~= item_leaves(inner, items.take(n))
            + Seq::<Leaf>::empty());
    } else {
        let init = items.drop_last();
        lemma_item_leaves_split(inner, init, n);
        assert(init.take(n) =~= items.take(n));
        let rest = choose|rest: Seq<Leaf>|
            item_leaves(inner, init) == #[trigger] (item_leaves(inner, items.take(n)) + rest);
        let last = all_under(items.len() - 1, leaves(inner, items.last()));
        assert(item_leaves(inner, items) =~= item_leaves(inner, items.take(n)) + (rest + last));
    }
}

/// Goes through elements of a tuple, or through arguments or results in a row.
pub(crate) fn navigate_parts<W: ValVisitor<ResourceAny>>(
    parts: &Vec<(usize, ValNavigator)>,
    items: &mut Vec<Value>,
    visitor: &mut W,
) -> (r: Result<(), VisitError>)
    requires
        parts_well_formed(part_trees(parts@)),
        parts_fit(part_trees(parts@), ValueTree::Tuple(value_trees(old(items)@))),
    ensures
        navigated(
            part_leaves(part_trees(parts@), ValueTree::Tuple(value_trees(old(items)@))),
            ValueTree::Tuple(value_trees(old(items)@)),
            ValueTree::Tuple(value_trees(final(items)@)),
            *old(visitor),
            *final(visitor),
            r,
        ),
    decreases parts, 1nat,
{
    let ghost navs = part_trees(parts@);
    let ghost before = ValueTree::Tuple(value_trees(items@));
    let ghost start = *visitor;
    proof {
        lemma_navigated_nothing(before, start);
        assert(navs.take(0) =~= Seq::empty());
    }
    let mut i: usize = 0;
    while i < parts.len()
        invariant
            i <= parts@.len() == navs.len(),
            navs == part_trees(parts@),
            before == ValueTree::Tuple(value_trees(old(items)@)),
            start == *old(visitor),
            items@.len() == old(items)@.len(),
            parts_well_formed(navs),
            parts_fit(navs, before),
            forall|j: int|
                i <= j < navs.len() ==> ValueTree::Tuple(value_trees(items@)).child(
                    (#[trigger] navs[j]).0,
                ) == before.child(navs[j].0),
            navigated(
                part_leaves(navs.take(i as int), before),
                before,
                ValueTree::Tuple(value_trees(items@)),
                start,
                *visitor,
                Ok(()),
            ),
        decreases parts.len() - i,
    {
        let ghost now = ValueTree::Tuple(value_trees(items@));
        let ghost middle = *visitor;
        let ghost done = part_leaves(navs.take(i as int), before);
        let ghost k = navs[i as int].0;
        let ghost places = leaves(navs[i as int].1, before.child(k));
        assert(navs.take(i + 1).drop_last() =~= navs.take(i as int));
        assert(before.has_child(k) && now.child(k) == before.child(k));
        let at: usize = parts[i].0;
        assert(items@[at as int]@ == before.child(k));
        let r = parts[i].1.navigate(&mut items[at], visitor);
        let ghost next = ValueTree::Tuple(value_trees(items@));
        let ghost part = items@[at as int]@;
        proof {
            assert(next == now.with_child(k, part)) by {
                assert(value_trees(items@) =~= now.with_child(k, part)->Tuple_0);
            }
            lemma_navigated_under(places, now, k, part, middle, *visitor, r);
            lemma_navigated_more(
                done,
                all_under(k, places),
                before,
                now,
                next,
                start,
                middle,
                *visitor,
                r,
            );
            assert forall|j: int| i + 1 <= j < navs.len() implies next.child((#[trigger] navs[j]).0)
                == before.child(navs[j].0) by {
                lemma_other_child(now, k, part, navs[j].0);
            }
            if r is Err {
                lemma_part_leaves_split(navs, before, i + 1);
                let whole = part_leaves(navs.take(i + 1), before);
                let rest = choose|rest: Seq<Leaf>|
                    part_leaves(navs, before) == #[trigger] (whole + rest);
                lemma_navigated_failed(whole, rest, before, next, start, *visitor, r);
            }
        }
        if r.is_err() {
            return r;
        }
        i = i + 1;
    }
    assert(navs.take(navs.len() as int) =~= navs);
    Ok(())
}

/// Goes through fields of a record.
pub(crate) fn navigate_fields<W: ValVisitor<ResourceAny>>(
    parts: &Vec<(usize, ValNavigator)>,
    fields: &mut Vec<(String, Value)>,
    visitor: &mut W,
) -> (r: Result<(), VisitError>)
    requires
        parts_well_formed(part_trees(parts@)),
        parts_fit(part_trees(parts@), ValueTree::Record(field_trees(old(fields)@))),
    ensures
        navigated(
            part_leaves(part_trees(parts@), ValueTree::Record(field_trees(old(fields)@))),
            ValueTree::Record(field_trees(old(fields)@)),
            ValueTree::Record(field_trees(final(fields)@)),
            *old(visitor),
            *final(visitor),
            r,
        ),
    decreases parts, 1nat,
{
    let ghost navs = part_trees(parts@);
    let ghost before = ValueTree::Record(field_trees(fields@));
    let ghost start = *visitor;
    proof {
        lemma_navigated_nothing(before, start);
        assert(navs.take(0) =~= Seq::empty());
    }
    let mut i: usize = 0;
    while i < parts.len()
        invariant
            i <= parts@.len() == navs.len(),
            navs == part_trees(parts@),
            before == ValueTree::Record(field_trees(old(fields)@)),
            start == *old(visitor),
            fields@.len() == old(fields)@.len(),
            parts_well_formed(navs),
            parts_fit(navs, before),
            forall|j: int|
                i <= j < navs.len() ==> ValueTree::Record(field_trees(fields@)).child(
                    (#[trigger] navs[j]).0,
                ) == before.child(navs[j].0),
            navigated(
                part_leaves(navs.take(i as int), before),
                before,
                ValueTree::Record(field_trees(fields@)),
                start,
                *visitor,
                Ok(()),
            ),
        decreases parts.len() - i,
    {
        let ghost now = ValueTree::Record(field_trees(fields@));
        let ghost middle = *visitor;
        let ghost done = part_leaves(navs.take(i as int), before);
        let ghost k = navs[i as int].0;
        let ghost places = leaves(navs[i as int].1, before.child(k));
        assert(navs.take(i + 1).drop_last() =~= navs.take(i as int));
        assert(before.has_child(k) && now.child(k) == before.child(k));
        let at: usize = parts[i].0;
        assert(fields@[at as int].1@ == before.child(k));
        let r = parts[i].1.navigate(&mut fields[at].1, visitor);
        let ghost next = ValueTree::Record(field_trees(fields@));
        let ghost part = fields@[at as int].1@;
        proof {
            assert(next == now.with_child(k, part)) by {
                assert(field_trees(fields@) =~= now.with_child(k, part)->Record_0);
            }
            lemma_navigated_under(places, now, k, part, middle, *visitor, r);
            lemma_navigated_more(
                done,
                all_under(k, places),
                before,
                now,
                next,
                start,
                middle,
                *visitor,
                r,
            );
            assert forall|j: int| i + 1 <= j < navs.len() implies next.child((#[trigger] navs[j]).0)
                == before.child(navs[j].0) by {
                lemma_other_child(now, k, part, navs[j].0);
            }
            if r is Err {
                lemma_part_leaves_split(navs, before, i + 1);
                let whole = part_leaves(navs.take(i + 1), before);
                let rest = choose|rest: Seq<Leaf>|
                    part_leaves(navs, before) == #[trigger] (whole + rest);
                lemma_navigated_failed(whole, rest, before, next, start, *visitor, r);
            }
        }
        if r.is_err() {
            return r;
        }
        i = i + 1;
    }
    assert(navs.take(navs.len() as int) =~= navs);
    Ok(())
}

proof fn lemma_part_leaves_split(parts: Seq<(int, NavTree)>, value: ValueTree, n: int)
    requires
        0 <= n <= parts.len(),
    ensures
        exists|rest: Seq<Leaf>|
            part_leaves(parts, value) == #[trigger] (part_leaves(parts.take(n), value) + rest),
    decreases parts.len(),
{
    if n == parts.len() {
        assert(parts.take(n) =~= parts);
        assert(part_leaves(parts, value) =~= part_leaves(parts.take(n), value)
            + Seq::<Leaf>::empty());
    } else {
        let init = parts.drop_last();
        lemma_part_leaves_split(init, value, n);
        assert(init.take(n) =~= parts.take(n));
        let rest = choose|rest: Seq<Leaf>|
            part_leaves(init, value) == #[trigger] (part_leaves(parts.take(n), value) + rest);
        let last = all_under(
            parts.last().0,
            leaves(parts.last().1, value.child(parts.last().0)),
        );
        assert(part_leaves(parts, value) =~= part_leaves(parts.take(n), value) + (rest + last));
    }
}

} // verus!
