//! Building the navigator of a type.

use vstd::prelude::*;

use crate::names::position;
use crate::navigator::{
    arm_nav_tree, case_names, case_nav_trees, item_leaves, leaves, optional_nav_tree, part_leaves,
    part_trees, parts_well_formed, well_formed, NavTree, ValNavigator,
};
use crate::value::{all_under, Leaf, ValueTree};
use crate::value_type::{arm_tree, case_trees, type_trees, TypeTree, ValueType};

verus! {

/// Whether values of the type can hold a resource handle.
pub open spec fn mentions_resource(ty: TypeTree) -> bool
    decreases ty,
{
    match ty {
        TypeTree::Own(_) => true,
        TypeTree::Borrow(_) => true,
        TypeTree::Record(fields) => exists|i: int|
            0 <= i < fields.len() && mentions_resource(#[trigger] fields[i]),
        TypeTree::List(inner) => mentions_resource(*inner),
        TypeTree::Tuple(types) => exists|i: int|
            0 <= i < types.len() && mentions_resource(#[trigger] types[i]),
        TypeTree::Option(inner) => mentions_resource(*inner),
        TypeTree::Result(ok, err) => (ok is Some && mentions_resource(*ok->0)) || (err is Some
            && mentions_resource(*err->0)),
        TypeTree::Variant(cases) => exists|i: int|
            0 <= i < cases.len() && (#[trigger] cases[i]).1 is Some && mentions_resource(
                cases[i].1->0,
            ),
        TypeTree::Other => false,
    }
}

/// The handles in `value`, taken as a value of type `ty`, in the order of the
/// value, each with the resource type that `ty` gives to its place.
pub open spec fn handles(ty: TypeTree, value: ValueTree) -> Seq<Leaf>
    decreases ty, 0nat,
{
    match ty {
        TypeTree::Own(rt) => own_handle(rt, value),
        TypeTree::Borrow(rt) => own_handle(rt, value),
        TypeTree::Record(fields) => if value is Record {
            field_handles(fields, value)
        } else {
            Seq::empty()
        },
        TypeTree::List(inner) => match value {
            ValueTree::List(items) => item_handles(*inner, items),
            _ => Seq::empty(),
        },
        TypeTree::Tuple(types) => if value is Tuple {
            field_handles(types, value)
        } else {
            Seq::empty()
        },
        TypeTree::Option(inner) => match value {
            ValueTree::Option(Some(payload)) => all_under(0, handles(*inner, *payload)),
            _ => Seq::empty(),
        },
        TypeTree::Result(ok, err) => match value {
            ValueTree::Result(Ok(Some(payload))) => match ok {
                Some(inner) => all_under(0, handles(*inner, *payload)),
                None => Seq::empty(),
            },
            ValueTree::Result(Err(Some(payload))) => match err {
                Some(inner) => all_under(0, handles(*inner, *payload)),
                None => Seq::empty(),
            },
            _ => Seq::empty(),
        },
        TypeTree::Variant(cases) => match value {
            ValueTree::Variant(case, Some(payload)) => match position(case_names(cases), case) {
                Some(i) => if 0 <= i < cases.len() && cases[i].1 is Some {
                    all_under(0, handles(cases[i].1->0, *payload))
                } else {
                    Seq::empty()
                },
                None => Seq::empty(),
            },
            _ => Seq::empty(),
        },
        TypeTree::Other => Seq::empty(),
    }
}

/// The handle that a value of a resource type is.
pub open spec fn own_handle(rt: wasmtime::component::ResourceType, value: ValueTree) -> Seq<Leaf> {
    match value {
        ValueTree::Resource(handle) => seq![Leaf { path: Seq::empty(), handle, ty: rt }],
        _ => Seq::empty(),
    }
}

/// The handles in the first fields or elements of `value`, as many as there are
/// types for.
pub open spec fn field_handles(types: Seq<TypeTree>, value: ValueTree) -> Seq<Leaf>
    decreases types, 0nat,
{
    if types.len() == 0 {
        Seq::empty()
    } else {
        field_handles(types.drop_last(), value) + all_under(
            types.len() - 1,
            handles(types.last(), value.child(types.len() - 1)),
        )
    }
}

/// The handles in the elements of a list.
pub open spec fn item_handles(inner: TypeTree, items: Seq<ValueTree>) -> Seq<Leaf>
    decreases inner, 1 + items.len(),
{
    if items.len() == 0 {
        Seq::empty()
    } else {
        item_handles(inner, items.drop_last()) + all_under(
            items.len() - 1,
            handles(inner, items.last()),
        )
    }
}

/// The navigator of a type, or nothing if the type mentions no resource.
pub open spec fn compile(ty: TypeTree) -> Option<NavTree>
    decreases ty,
{
    match ty {
        TypeTree::Own(rt) => Some(NavTree::Handle(rt)),
        TypeTree::Borrow(rt) => Some(NavTree::Handle(rt)),
        TypeTree::Record(fields) => if compile_parts(fields).len() == 0 {
            None
        } else {
            Some(NavTree::Record(compile_parts(fields)))
        },
        TypeTree::List(inner) => match compile(*inner) {
            Some(nav) => Some(NavTree::List(Box::new(nav))),
            None => None,
        },
        TypeTree::Tuple(types) => if compile_parts(types).len() == 0 {
            None
        } else {
            Some(NavTree::Tuple(compile_parts(types)))
        },
        TypeTree::Option(inner) => match compile(*inner) {
            Some(nav) => Some(NavTree::Option(Box::new(nav))),
            None => None,
        },
        TypeTree::Result(ok, err) => if compile_arm(ok) is None && compile_arm(err) is None {
            None
        } else {
            Some(NavTree::Result(compile_arm(ok), compile_arm(err)))
        },
        TypeTree::Variant(cases) => if exists|i: int|
            0 <= i < cases.len() && (#[trigger] compile_cases(cases)[i]).1 is Some {
            Some(NavTree::Variant(compile_cases(cases)))
        } else {
            None
        },
        TypeTree::Other => None,
    }
}

/// The navigators of those of `types` that mention a resource, with their
/// positions.
pub open spec fn compile_parts(types: Seq<TypeTree>) -> Seq<(int, NavTree)>
    decreases types,
{
    if types.len() == 0 {
        Seq::empty()
    } else {
        match compile(types.last()) {
            Some(nav) => compile_parts(types.drop_last()).push((types.len() - 1, nav)),
            None => compile_parts(types.drop_last()),
        }
    }
}

/// The navigator of the payload of an arm of a result.
pub open spec fn compile_arm(arm: Option<Box<TypeTree>>) -> Option<Box<NavTree>>
    decreases arm,
{
    match arm {
        Some(ty) => match compile(*ty) {
            Some(nav) => Some(Box::new(nav)),
            None => None,
        },
        None => None,
    }
}

/// The navigators of the payloads of the cases of a variant.
pub open spec fn compile_cases(cases: Seq<(Seq<char>, Option<TypeTree>)>) -> Seq<
    (Seq<char>, Option<NavTree>),
>
    decreases cases,
{
    Seq::new(
        cases.len(),
        |i: int|
            if 0 <= i < cases.len() {
                (
                    cases[i].0,
                    match cases[i].1 {
                        Some(ty) => compile(ty),
                        None => None,
                    },
                )
            } else {
                arbitrary()
            },
    )
}

/// A type has a navigator exactly if it mentions a resource.
pub proof fn navigator_iff_resources(ty: TypeTree)
    ensures
        compile(ty) is Some <==> mentions_resource(ty),
    decreases ty,
{
    match ty {
        TypeTree::Record(fields) => lemma_parts_iff_resources(fields),
        TypeTree::List(inner) => navigator_iff_resources(*inner),
        TypeTree::Tuple(types) => lemma_parts_iff_resources(types),
        TypeTree::Option(inner) => navigator_iff_resources(*inner),
        TypeTree::Result(ok, err) => {
            assert(compile_arm(ok) is Some <==> ok is Some && compile(*ok->0) is Some);
            assert(compile_arm(err) is Some <==> err is Some && compile(*err->0) is Some);
            if let Some(inner) = ok {
                navigator_iff_resources(*inner);
            }
            if let Some(inner) = err {
                navigator_iff_resources(*inner);
            }
        },
        TypeTree::Variant(cases) => {
            assert forall|i: int| 0 <= i < cases.len() implies ((#[trigger] compile_cases(
                cases,
            )[i]).1 is Some <==> cases[i].1 is Some && mentions_resource(cases[i].1->0)) by {
                if cases[i].1 is Some {
                    navigator_iff_resources(cases[i].1->0);
                }
            }
            if mentions_resource(ty) {
                let i = choose|i: int|
                    0 <= i < cases.len() && (#[trigger] cases[i]).1 is Some && mentions_resource(
                        cases[i].1->0,
                    );
                assert(compile_cases(cases)[i].1 is Some);
            }
        },
        _ => {},
    }
}

proof fn lemma_parts_iff_resources(types: Seq<TypeTree>)
    ensures
        compile_parts(types).len() > 0 <==> exists|i: int|
            0 <= i < types.len() && mentions_resource(#[trigger] types[i]),
    decreases types,
{
    if types.len() > 0 {
        let init = types.drop_last();
        lemma_parts_iff_resources(init);
        navigator_iff_resources(types.last());
        if compile_parts(init).len() > 0 {
            let i = choose|i: int| 0 <= i < init.len() && mentions_resource(#[trigger] init[i]);
            assert(mentions_resource(types[i]));
        } else if compile(types.last()) is Some {
            assert(mentions_resource(types[types.len() - 1]));
        } else {
            assert forall|i: int| 0 <= i < types.len() implies !mentions_resource(
                #[trigger] types[i],
            ) by {
                if i < init.len() {
                    assert(!mentions_resource(init[i]));
                }
            }
        }
    }
}

/// A navigator leads to all the handles of a value of its type, in order, and to
/// nothing else; a type without navigator has no handles.
pub proof fn navigator_reaches_all_handles(ty: TypeTree, value: ValueTree)
    ensures
        handles(ty, value) == match compile(ty) {
            Some(nav) => leaves(nav, value),
            None => Seq::empty(),
        },
    decreases ty, 0nat,
{
    match ty {
        TypeTree::Record(fields) => lemma_parts_reach(fields, value),
        TypeTree::List(inner) => {
            if let ValueTree::List(items) = value {
                lemma_items_reach(*inner, items);
            }
        },
        TypeTree::Tuple(types) => lemma_parts_reach(types, value),
        TypeTree::Option(inner) => {
            if let ValueTree::Option(Some(payload)) = value {
                navigator_reaches_all_handles(*inner, *payload);
                lemma_nothing_under(0);
            }
        },
        TypeTree::Result(ok, err) => {
            lemma_nothing_under(0);
            match value {
                ValueTree::Result(Ok(Some(payload))) => {
                    if let Some(inner) = ok {
                        navigator_reaches_all_handles(*inner, *payload);
                        assert(compile_arm(ok) is Some <==> compile(*inner) is Some);
                    }
                },
                ValueTree::Result(Err(Some(payload))) => {
                    if let Some(inner) = err {
                        navigator_reaches_all_handles(*inner, *payload);
                        assert(compile_arm(err) is Some <==> compile(*inner) is Some);
                    }
                },
                _ => {},
            }
        },
        TypeTree::Variant(cases) => {
            if let ValueTree::Variant(case, Some(payload)) = value {
                lemma_nothing_under(0);
                crate::names::lemma_position(case_names(cases), case);
                assert(case_names(compile_cases(cases)) =~= case_names(cases));
                if let Some(i) = position(case_names(cases), case) {
                    if cases[i].1 is Some {
                        navigator_reaches_all_handles(cases[i].1->0, *payload);
                        assert(compile_cases(cases)[i].1 == compile(cases[i].1->0));
                    }
                }
            }
        },
        _ => {},
    }
}

proof fn lemma_nothing_under(k: int)
    ensures
        all_under(k, Seq::empty()) == Seq::<Leaf>::empty(),
{
    assert(all_under(k, Seq::empty()) =~= Seq::<Leaf>::empty());
}

pub(crate) proof fn lemma_parts_reach(types: Seq<TypeTree>, value: ValueTree)
    ensures
        field_handles(types, value) == part_leaves(compile_parts(types), value),
    decreases types, 0nat,
{
    if types.len() > 0 {
        let k = types.len() - 1;
        lemma_parts_reach(types.drop_last(), value);
        navigator_reaches_all_handles(types.last(), value.child(k));
        lemma_nothing_under(k);
        match compile(types.last()) {
            Some(nav) => {
                let parts = compile_parts(types);
                assert(parts.drop_last() =~= compile_parts(types.drop_last()));
            },
            None => {
                assert(field_handles(types, value) =~= field_handles(types.drop_last(), value));
            },
        }
    }
}

proof fn lemma_items_reach(inner: TypeTree, items: Seq<ValueTree>)
    ensures
        item_handles(inner, items) == match compile(inner) {
            Some(nav) => item_leaves(nav, items),
            None => Seq::empty(),
        },
    decreases inner, 1 + items.len(),
{
    if items.len() > 0 {
        lemma_items_reach(inner, items.drop_last());
        navigator_reaches_all_handles(inner, items.last());
        lemma_nothing_under(items.len() - 1);
        assert(Seq::<Leaf>::empty() + Seq::<Leaf>::empty() =~= Seq::<Leaf>::empty());
    }
}

pub(crate) proof fn lemma_compiled_well_formed(ty: TypeTree)
    ensures
        compile(ty) matches Some(nav) ==> well_formed(nav),
    decreases ty,
{
    match ty {
        TypeTree::Record(fields) => lemma_compiled_parts(fields),
        TypeTree::List(inner) => lemma_compiled_well_formed(*inner),
        TypeTree::Tuple(types) => lemma_compiled_parts(types),
        TypeTree::Option(inner) => lemma_compiled_well_formed(*inner),
        TypeTree::Result(ok, err) => {
            if let Some(inner) = ok {
                lemma_compiled_well_formed(*inner);
                assert(compile_arm(ok) is Some <==> compile(*inner) is Some);
            }
            if let Some(inner) = err {
                lemma_compiled_well_formed(*inner);
                assert(compile_arm(err) is Some <==> compile(*inner) is Some);
            }
        },
        TypeTree::Variant(cases) => {
            let compiled = compile_cases(cases);
            assert forall|i: int|
                0 <= i < compiled.len() && (#[trigger] compiled[i]).1 is Some implies well_formed(
                compiled[i].1->0,
            ) by {
                lemma_compiled_well_formed(cases[i].1->0);
            }
        },
        _ => {},
    }
}

pub(crate) proof fn lemma_compiled_parts(types: Seq<TypeTree>)
    ensures
        parts_well_formed(compile_parts(types)),
        forall|i: int|
            0 <= i < compile_parts(types).len() ==> 0 <= (#[trigger] compile_parts(types)[i]).0
                < types.len(),
    decreases types,
{
    if types.len() > 0 {
        lemma_compiled_parts(types.drop_last());
        lemma_compiled_well_formed(types.last());
    }
}

/// Builds the navigator of a type. Returns `None` if the type contains no
/// resources.
pub fn build_val_navigator(ty: &ValueType) -> (r: Option<ValNavigator>)
    ensures
        optional_nav_tree(r) == compile(ty@),
        r is Some <==> mentions_resource(ty@),
        r matches Some(nav) ==> well_formed(nav@),
    decreases ty, 0nat,
{
    proof {
        navigator_iff_resources(ty@);
        lemma_compiled_well_formed(ty@);
    }
    match ty {
        ValueType::Own(rt) => Some(ValNavigator::Handle(*rt)),
        ValueType::Borrow(rt) => Some(ValNavigator::Handle(*rt)),
        ValueType::Record(fields) => {
            let parts = build_part_navigators(fields);
            if parts.len() == 0 {
                None
            } else {
                Some(ValNavigator::Record(parts))
            }
        },
        ValueType::List(inner) => {
            match build_val_navigator(inner) {
                Some(nav) => Some(ValNavigator::List(Box::new(nav))),
                None => None,
            }
        },
        ValueType::Tuple(types) => {
            let parts = build_part_navigators(types);
            if parts.len() == 0 {
                None
            } else {
                Some(ValNavigator::Tuple(parts))
            }
        },
        ValueType::Option(inner) => {
            match build_val_navigator(inner) {
                Some(nav) => Some(ValNavigator::Option(Box::new(nav))),
                None => None,
            }
        },
        ValueType::Result(ok, err) => {
            let ok_nav = build_arm_navigator(ok);
            let err_nav = build_arm_navigator(err);
            if ok_nav.is_none() && err_nav.is_none() {
                None
            } else {
                Some(ValNavigator::Result(ok_nav, err_nav))
            }
        },
        ValueType::Variant(cases) => {
            let (navs, any) = build_case_navigators(cases);
            if any {
                Some(ValNavigator::Variant(navs))
            } else {
                None
            }
        },
        ValueType::Other => None,
    }
}

/// Builds the navigator of the payload of an arm of a result.
fn build_arm_navigator(arm: &Option<Box<ValueType>>) -> (r: Option<Box<ValNavigator>>)
    ensures
        arm_nav_tree(r) == compile_arm(arm_tree(*arm)),
    decreases arm, 1nat,
{
    match arm {
        Some(ty) => match build_val_navigator(ty) {
            Some(nav) => Some(Box::new(nav)),
            None => None,
        },
        None => None,
    }
}

/// Builds the navigators of the payloads of the cases of a variant, and tells
/// whether there are any.
fn build_case_navigators(cases: &Vec<(String, Option<ValueType>)>) -> (r: (
    Vec<(String, Option<ValNavigator>)>,
    bool,
))
    ensures
        case_nav_trees(r.0@) == compile_cases(case_trees(cases@)),
        r.1 <==> exists|i: int|
            0 <= i < cases@.len() && (#[trigger] compile_cases(case_trees(cases@))[i]).1 is Some,
    decreases cases, 1nat,
{
    let ghost compiled = compile_cases(case_trees(cases@));
    let mut navs: Vec<(String, Option<ValNavigator>)> = Vec::new();
    let mut any = false;
    let mut i: usize = 0;
    while i < cases.len()
        invariant
            i <= cases@.len() == compiled.len(),
            navs@.len() == i,
            compiled == compile_cases(case_trees(cases@)),
            forall|j: int|
                0 <= j < i ==> compiled[j] == (
                    (#[trigger] navs@[j]).0@,
                    optional_nav_tree(navs@[j].1),
                ),
            any <==> exists|j: int| 0 <= j < i && (#[trigger] compiled[j]).1 is Some,
        decreases cases.len() - i,
    {
        let nav = match &cases[i].1 {
            Some(payload) => build_val_navigator(payload),
            None => None,
        };
        assert(compiled[i as int] == (cases@[i as int].0@, optional_nav_tree(nav)));
        if nav.is_some() {
            any = true;
        }
        navs.push((cases[i].0.clone(), nav));
        i = i + 1;
    }
    assert(case_nav_trees(navs@) =~= compiled);
    (navs, any)
}

/// Builds the navigators of those of `types` that contain resources, with their
/// positions.
pub(crate) fn build_part_navigators(types: &Vec<ValueType>) -> (parts: Vec<(usize, ValNavigator)>)
    ensures
        part_trees(parts@) == compile_parts(type_trees(types@)),
        parts_well_formed(part_trees(parts@)),
    decreases types, 1nat,
{
    let ghost trees = type_trees(types@);
    let mut parts: Vec<(usize, ValNavigator)> = Vec::new();
    let mut i: usize = 0;
    assert(trees.take(0) =~= Seq::empty());
    assert(part_trees(parts@) =~= Seq::empty());
    while i < types.len()
        invariant
            i <= types@.len() == trees.len(),
            trees == type_trees(types@),
            part_trees(parts@) == compile_parts(trees.take(i as int)),
        decreases types.len() - i,
    {
        assert(trees.take(i + 1).drop_last() =~= trees.take(i as int));
        assert(trees[i as int] == types@[i as int]@);
        let ghost before = parts@;
        match build_val_navigator(&types[i]) {
            Some(nav) => {
                parts.push((i, nav));
                assert(part_trees(parts@) =~= part_trees(before).push((i as int, nav@)));
            },
            None => {},
        }
        i = i + 1;
    }
    assert(trees.take(trees.len() as int) =~= trees);
    proof {
        lemma_compiled_parts(trees);
    }
    parts
}

} // verus!
