//! What holds of values whose resource handles are remapped.

use vstd::prelude::*;
use wasmtime::component::{ResourceAny, ResourceTable, ResourceType};

use crate::compile::{compile, compile_arm, compile_cases, compile_parts, lemma_compiled_parts};
use crate::error::VisitError;
use crate::mapper::{mapper_of, row, SignatureTree};
use crate::names::position;
use crate::navigator::{
    case_names, item_leaves, leaves, lemma_parts_are_in, part_leaves, parts_fit, parts_well_formed,
    well_formed, NavTree,
};
use crate::proxy::{
    proxied, proxies_are_kept, proxies_in, registered, remapped, resolved_handles, results_proxied,
    results_rule,
};
use crate::typing::{has_type, have_types};
use crate::value::{
    all_under, are_in, lemma_child_of_with_child, lemma_other_child, part_at, with_handles, Leaf,
    Value, ValueTree,
};
use crate::value_type::TypeTree;
use crate::visitor::{chained, handles_left, ProxyState, Visit};
use crate::wasm::{
    handle_owned, handle_type, host_type, stands_for, table_handles, table_room,
};

verus! {

// ---------------------------------------------------------------------------
// Values with other handles
// ---------------------------------------------------------------------------

/// The value has no parts.
pub open spec fn is_end(value: ValueTree) -> bool {
    forall|k: int| !#[trigger] value.has_child(k)
}

/// The two values differ in their resource handles at most: they are made in the same
/// way, with the same names and the same plain values.
pub open spec fn same_but_handles(a: ValueTree, b: ValueTree) -> bool
    decreases a,
{
    match (a, b) {
        (ValueTree::Resource(_), ValueTree::Resource(_)) => true,
        (ValueTree::List(x), ValueTree::List(y)) => x.len() == y.len() && forall|i: int|
            0 <= i < x.len() ==> same_but_handles(#[trigger] x[i], y[i]),
        (ValueTree::Tuple(x), ValueTree::Tuple(y)) => x.len() == y.len() && forall|i: int|
            0 <= i < x.len() ==> same_but_handles(#[trigger] x[i], y[i]),
        (ValueTree::Record(x), ValueTree::Record(y)) => x.len() == y.len() && forall|i: int|
            0 <= i < x.len() ==> (#[trigger] x[i]).0 == y[i].0 && same_but_handles(x[i].1, y[i].1),
        (ValueTree::Variant(n, x), ValueTree::Variant(m, y)) => n == m && match (x, y) {
            (Some(x), Some(y)) => same_but_handles(*x, *y),
            (None, None) => true,
            _ => false,
        },
        (ValueTree::Option(x), ValueTree::Option(y)) => match (x, y) {
            (Some(x), Some(y)) => same_but_handles(*x, *y),
            (None, None) => true,
            _ => false,
        },
        (ValueTree::Result(Ok(x)), ValueTree::Result(Ok(y))) => match (x, y) {
            (Some(x), Some(y)) => same_but_handles(*x, *y),
            (None, None) => true,
            _ => false,
        },
        (ValueTree::Result(Err(x)), ValueTree::Result(Err(y))) => match (x, y) {
            (Some(x), Some(y)) => same_but_handles(*x, *y),
            (None, None) => true,
            _ => false,
        },
        (ValueTree::Plain(x), ValueTree::Plain(y)) => x == y,
        _ => false,
    }
}

/// No two of `leaves` are at the same place.
pub open spec fn at_different_places(leaves: Seq<Leaf>) -> bool {
    forall|i: int, j: int|
        0 <= i < j < leaves.len() ==> (#[trigger] leaves[i]).path != (#[trigger] leaves[j]).path
}

/// Putting handles into a value puts each of them at its place, and changes nothing
/// else.
pub proof fn handles_go_to_their_places(
    value: ValueTree,
    places: Seq<Leaf>,
    handles: Seq<ResourceAny>,
)
    requires
        are_in(places, value),
        at_different_places(places),
        handles.len() <= places.len(),
    ensures
        ({
            let after = with_handles(value, places, handles);
            &&& forall|i: int|
                0 <= i < places.len() ==> part_at(after, (#[trigger] places[i]).path) == Some(
                    ValueTree::Resource(
                        if i < handles.len() {
                            handles[i]
                        } else {
                            places[i].handle
                        },
                    ),
                )
            &&& forall|path: Seq<int>| #[trigger]
                part_at(value, path) is Some && is_end(part_at(value, path)->0) && (forall|i: int|
                    0 <= i < handles.len() ==> (#[trigger] places[i]).path != path) ==> part_at(
                    after,
                    path,
                ) == part_at(value, path)
            &&& same_but_handles(value, after)
        }),
    decreases handles.len(),
{
    let after = with_handles(value, places, handles);
    if handles.len() == 0 {
        lemma_same(value);
    } else {
        let n = handles.len() - 1;
        let init = handles.drop_last();
        let before = with_handles(value, places, init);
        handles_go_to_their_places(value, places, init);
        assert(part_at(before, places[n].path) == Some(ValueTree::Resource(places[n].handle)));
        lemma_put(before, places[n].path, handles[n]);
        assert forall|i: int| 0 <= i < places.len() implies part_at(
            after,
            (#[trigger] places[i]).path,
        ) == Some(
            ValueTree::Resource(
                if i < handles.len() {
                    handles[i]
                } else {
                    places[i].handle
                },
            ),
        ) by {
            if i != n {
                if i < n {
                    assert(places[i].path != places[n].path);
                    assert(init[i] == handles[i]);
                } else {
                    assert(places[n].path != places[i].path);
                }
                lemma_put_elsewhere(before, places[n].path, handles[n], places[i].path);
            }
        }
        assert forall|path: Seq<int>| #[trigger]
            part_at(value, path) is Some && is_end(part_at(value, path)->0) && (forall|i: int|
                0 <= i < handles.len() ==> (#[trigger] places[i]).path != path) implies part_at(
            after,
            path,
        ) == part_at(value, path) by {
            assert(places[n].path != path);
            assert(part_at(before, path) == part_at(value, path));
            lemma_put_elsewhere(before, places[n].path, handles[n], path);
        }
        lemma_same_trans(value, before, after);
    }
}

proof fn lemma_same(value: ValueTree)
    ensures
        same_but_handles(value, value),
    decreases value,
{
    match value {
        ValueTree::List(x) => {
            assert forall|i: int| 0 <= i < x.len() implies same_but_handles(#[trigger] x[i], x[i]) by {
                lemma_same(x[i]);
            }
        },
        ValueTree::Tuple(x) => {
            assert forall|i: int| 0 <= i < x.len() implies same_but_handles(#[trigger] x[i], x[i]) by {
                lemma_same(x[i]);
            }
        },
        ValueTree::Record(x) => {
            assert forall|i: int| 0 <= i < x.len() implies (#[trigger] x[i]).0 == x[i].0
                && same_but_handles(x[i].1, x[i].1) by {
                lemma_same(x[i].1);
            }
        },
        ValueTree::Variant(_, Some(x)) => lemma_same(*x),
        ValueTree::Option(Some(x)) => lemma_same(*x),
        ValueTree::Result(Ok(Some(x))) => lemma_same(*x),
        ValueTree::Result(Err(Some(x))) => lemma_same(*x),
        _ => {},
    }
}

proof fn lemma_same_trans(a: ValueTree, b: ValueTree, c: ValueTree)
    requires
        same_but_handles(a, b),
        same_but_handles(b, c),
    ensures
        same_but_handles(a, c),
    decreases a,
{
    match (a, b, c) {
        (ValueTree::List(x), ValueTree::List(y), ValueTree::List(z)) => {
            assert forall|i: int| 0 <= i < x.len() implies same_but_handles(#[trigger] x[i], z[i]) by {
                assert(same_but_handles(x[i], y[i]) && same_but_handles(y[i], z[i]));
                lemma_same_trans(x[i], y[i], z[i]);
            }
        },
        (ValueTree::Tuple(x), ValueTree::Tuple(y), ValueTree::Tuple(z)) => {
            assert forall|i: int| 0 <= i < x.len() implies same_but_handles(#[trigger] x[i], z[i]) by {
                assert(same_but_handles(x[i], y[i]) && same_but_handles(y[i], z[i]));
                lemma_same_trans(x[i], y[i], z[i]);
            }
        },
        (ValueTree::Record(x), ValueTree::Record(y), ValueTree::Record(z)) => {
            assert forall|i: int| 0 <= i < x.len() implies (#[trigger] x[i]).0 == z[i].0
                && same_but_handles(x[i].1, z[i].1) by {
                assert(x[i].0 == y[i].0 && y[i].0 == z[i].0);
                lemma_same_trans(x[i].1, y[i].1, z[i].1);
            }
        },
        (ValueTree::Variant(_, Some(x)), ValueTree::Variant(_, Some(y)), ValueTree::Variant(
            _,
            Some(z),
        )) => lemma_same_trans(*x, *y, *z),
        (ValueTree::Option(Some(x)), ValueTree::Option(Some(y)), ValueTree::Option(Some(z))) =>
            lemma_same_trans(*x, *y, *z),
        (
            ValueTree::Result(Ok(Some(x))),
            ValueTree::Result(Ok(Some(y))),
            ValueTree::Result(Ok(Some(z))),
        ) => lemma_same_trans(*x, *y, *z),
        (
            ValueTree::Result(Err(Some(x))),
            ValueTree::Result(Err(Some(y))),
            ValueTree::Result(Err(Some(z))),
        ) => lemma_same_trans(*x, *y, *z),
        _ => {},
    }
}

/// A value with another part differs from it as that part does.
proof fn lemma_same_with_child(value: ValueTree, k: int, part: ValueTree)
    requires
        value.has_child(k),
        same_but_handles(value.child(k), part),
    ensures
        same_but_handles(value, value.with_child(k, part)),
{
    match value {
        ValueTree::List(x) => {
            let y = x.update(k, part);
            assert forall|i: int| 0 <= i < x.len() implies same_but_handles(#[trigger] x[i], y[i]) by {
                lemma_same(x[i]);
            }
        },
        ValueTree::Tuple(x) => {
            let y = x.update(k, part);
            assert forall|i: int| 0 <= i < x.len() implies same_but_handles(#[trigger] x[i], y[i]) by {
                lemma_same(x[i]);
            }
        },
        ValueTree::Record(x) => {
            let y = x.update(k, (x[k].0, part));
            assert forall|i: int| 0 <= i < x.len() implies (#[trigger] x[i]).0 == y[i].0
                && same_but_handles(x[i].1, y[i].1) by {
                lemma_same(x[i].1);
            }
        },
        _ => {},
    }
}

/// A handle that is put in the place of another is there, and nothing but handles
/// differs.
proof fn lemma_put(value: ValueTree, path: Seq<int>, handle: ResourceAny)
    requires
        part_at(value, path) is Some,
        part_at(value, path)->0 is Resource,
    ensures
        part_at(value.with_handle(path, handle), path) == Some(ValueTree::Resource(handle)),
        same_but_handles(value, value.with_handle(path, handle)),
    decreases path.len(),
{
    if path.len() > 0 {
        let part = value.child(path[0]).with_handle(path.drop_first(), handle);
        lemma_put(value.child(path[0]), path.drop_first(), handle);
        lemma_child_of_with_child(value, path[0], part);
        lemma_same_with_child(value, path[0], part);
    }
}

/// A handle that is put in the place of another changes nothing elsewhere.
proof fn lemma_put_elsewhere(
    value: ValueTree,
    path: Seq<int>,
    handle: ResourceAny,
    other: Seq<int>,
)
    requires
        part_at(value, path) is Some,
        part_at(value, path)->0 is Resource,
        part_at(value, other) is Some,
        is_end(part_at(value, other)->0),
        other != path,
    ensures
        part_at(value.with_handle(path, handle), other) == part_at(value, other),
    decreases path.len(),
{
    if path.len() == 0 {
        assert(other.len() > 0) by {
            if other.len() == 0 {
                assert(other =~= path);
            }
        }
        assert(value.has_child(other[0]));
    } else if other.len() == 0 {
        assert(value.has_child(path[0]));
    } else {
        let part = value.child(path[0]).with_handle(path.drop_first(), handle);
        lemma_child_of_with_child(value, path[0], part);
        if path[0] == other[0] {
            assert(path.drop_first() != other.drop_first()) by {
                if path.drop_first() == other.drop_first() {
                    assert(path =~= seq![path[0]] + path.drop_first());
                    assert(other =~= seq![other[0]] + other.drop_first());
                }
            }
            lemma_put_elsewhere(
                value.child(path[0]),
                path.drop_first(),
                handle,
                other.drop_first(),
            );
        } else {
            lemma_other_child(value, path[0], part, other[0]);
        }
    }
}

// ---------------------------------------------------------------------------
// Where a navigator leads
// ---------------------------------------------------------------------------

/// The type of the part of `value` at position `k`, where `value` has the type `ty`.
pub open spec fn type_of_part(ty: TypeTree, value: ValueTree, k: int) -> Option<TypeTree> {
    match (ty, value) {
        (TypeTree::Record(fields), ValueTree::Record(_)) => Some(fields[k]),
        (TypeTree::Tuple(types), ValueTree::Tuple(_)) => Some(types[k]),
        (TypeTree::List(inner), ValueTree::List(_)) => Some(*inner),
        (TypeTree::Option(inner), ValueTree::Option(_)) => Some(*inner),
        (TypeTree::Result(Some(inner), _), ValueTree::Result(Ok(_))) => Some(*inner),
        (TypeTree::Result(_, Some(inner)), ValueTree::Result(Err(_))) => Some(*inner),
        (TypeTree::Variant(cases), ValueTree::Variant(case, _)) => match position(
            case_names(cases),
            case,
        ) {
            Some(i) => cases[i].1,
            None => None,
        },
        _ => None,
    }
}

/// The type of the part of `value` that `path` leads to, where `value` has the type
/// `ty`.
pub open spec fn type_at(ty: TypeTree, value: ValueTree, path: Seq<int>) -> Option<TypeTree>
    decreases path.len(),
{
    if path.len() == 0 {
        Some(ty)
    } else {
        match type_of_part(ty, value, path[0]) {
            Some(inner) => type_at(inner, value.child(path[0]), path.drop_first()),
            None => None,
        }
    }
}

/// `value` has at `path` the handle `handle`, where its type asks for an owned or a
/// borrowed handle to a resource of the type `resource`.
pub open spec fn is_handle_at(
    ty: TypeTree,
    value: ValueTree,
    path: Seq<int>,
    handle: ResourceAny,
    resource: ResourceType,
) -> bool {
    &&& part_at(value, path) == Some(ValueTree::Resource(handle))
    &&& type_at(ty, value, path) == Some(TypeTree::Own(resource)) || type_at(ty, value, path)
        == Some(TypeTree::Borrow(resource))
}

/// One of `leaves` is this.
pub open spec fn is_leaf(
    leaves: Seq<Leaf>,
    path: Seq<int>,
    handle: ResourceAny,
    resource: ResourceType,
) -> bool {
    leaves.contains(Leaf { path, handle, ty: resource })
}

/// The leaves of a type's navigator, of which there are none without one.
pub open spec fn reached(ty: TypeTree, value: ValueTree) -> Seq<Leaf> {
    match compile(ty) {
        Some(nav) => leaves(nav, value),
        None => Seq::empty(),
    }
}

/// In a value of a type, the navigator of the type leads to every place at which the
/// type asks for a handle, however deep inside the value, and to no other place.
pub proof fn every_handle_is_reached(
    ty: TypeTree,
    value: ValueTree,
    path: Seq<int>,
    handle: ResourceAny,
    resource: ResourceType,
)
    requires
        has_type(ty, value),
    ensures
        is_leaf(reached(ty, value), path, handle, resource) <==> is_handle_at(
            ty,
            value,
            path,
            handle,
            resource,
        ),
    decreases ty, 0nat, 0nat,
{
    let rest = path.drop_first();
    let k = path[0];
    lemma_no_leaf(path, handle, resource);
    match ty {
        TypeTree::Own(rt) => lemma_leaf_alone(value->Resource_0, rt, path, handle, resource),
        TypeTree::Borrow(rt) => lemma_leaf_alone(value->Resource_0, rt, path, handle, resource),
        TypeTree::Record(fields) => {
            let values = value->Record_0;
            assert forall|i: int| 0 <= i < fields.len() implies value.has_child(i) by {}
            lemma_parts_reached(fields, value, path, handle, resource);
            if path.len() > 0 && 0 <= k < fields.len() {
                assert(has_type(fields[k], values[k].1));
                every_handle_is_reached(fields[k], value.child(k), rest, handle, resource);
            }
        },
        TypeTree::Tuple(types) => {
            let values = value->Tuple_0;
            lemma_parts_reached(types, value, path, handle, resource);
            if path.len() > 0 && 0 <= k < types.len() {
                assert(has_type(types[k], values[k]));
                every_handle_is_reached(types[k], value.child(k), rest, handle, resource);
            }
        },
        TypeTree::List(inner) => {
            let items = value->List_0;
            if let Some(nav) = compile(*inner) {
                lemma_items_reached(nav, items, path, handle, resource);
            }
            if path.len() > 0 && 0 <= k < items.len() {
                assert(has_type(*inner, items[k]));
                every_handle_is_reached(*inner, items[k], rest, handle, resource);
            }
        },
        TypeTree::Option(inner) => {
            if let ValueTree::Option(Some(payload)) = value {
                lemma_payload_reached(*inner, value, *payload, path, handle, resource);
                every_handle_is_reached(*inner, *payload, rest, handle, resource);
            }
        },
        TypeTree::Result(ok, err) => {
            match value {
                ValueTree::Result(Ok(Some(payload))) => {
                    let inner = ok->0;
                    assert(compile_arm(ok) is Some <==> compile(*inner) is Some);
                    lemma_payload_reached(*inner, value, *payload, path, handle, resource);
                    every_handle_is_reached(*inner, *payload, rest, handle, resource);
                },
                ValueTree::Result(Err(Some(payload))) => {
                    let inner = err->0;
                    assert(compile_arm(err) is Some <==> compile(*inner) is Some);
                    lemma_payload_reached(*inner, value, *payload, path, handle, resource);
                    every_handle_is_reached(*inner, *payload, rest, handle, resource);
                },
                _ => {},
            }
        },
        TypeTree::Variant(cases) => {
            if let ValueTree::Variant(case, Some(payload)) = value {
                assert(case_names(compile_cases(cases)) =~= case_names(cases));
                let i = position(case_names(cases), case)->0;
                let inner = cases[i].1->0;
                assert(compile_cases(cases)[i].1 == compile(inner));
                lemma_payload_reached(inner, value, *payload, path, handle, resource);
                every_handle_is_reached(inner, *payload, rest, handle, resource);
            }
        },
        TypeTree::Other => lemma_other_has_no_type(value, path),
    }
}

/// A type that holds no resource handle has no parts with a type.
proof fn lemma_other_has_no_type(value: ValueTree, path: Seq<int>)
    ensures
        path.len() > 0 ==> type_at(TypeTree::Other, value, path) is None,
{
}

proof fn lemma_no_leaf(path: Seq<int>, handle: ResourceAny, resource: ResourceType)
    ensures
        !is_leaf(Seq::empty(), path, handle, resource),
{
}

/// A handle by itself is its only leaf.
proof fn lemma_leaf_alone(
    own: ResourceAny,
    rt: ResourceType,
    path: Seq<int>,
    handle: ResourceAny,
    resource: ResourceType,
)
    ensures
        is_leaf(
            seq![Leaf { path: Seq::empty(), handle: own, ty: rt }],
            path,
            handle,
            resource,
        ) <==> path.len() == 0 && handle == own && resource == rt,
{
    let alone = seq![Leaf { path: Seq::empty(), handle: own, ty: rt }];
    if path.len() == 0 && handle == own && resource == rt {
        assert(path =~= Seq::empty());
        assert(alone[0] == (Leaf { path, handle, ty: resource }));
    }
}

proof fn lemma_leaf_under(
    at: int,
    inner: Seq<Leaf>,
    path: Seq<int>,
    handle: ResourceAny,
    resource: ResourceType,
)
    ensures
        is_leaf(all_under(at, inner), path, handle, resource) <==> path.len() > 0 && path[0] == at
            && is_leaf(inner, path.drop_first(), handle, resource),
{
    let outer = all_under(at, inner);
    let leaf = Leaf { path, handle, ty: resource };
    let below = Leaf { path: path.drop_first(), handle, ty: resource };
    if outer.contains(leaf) {
        let i = choose|i: int| 0 <= i < outer.len() && outer[i] == leaf;
        assert(path == seq![at] + inner[i].path);
        assert(path.drop_first() =~= inner[i].path);
        assert(inner[i] == below);
    }
    if path.len() > 0 && path[0] == at && inner.contains(below) {
        let i = choose|i: int| 0 <= i < inner.len() && inner[i] == below;
        assert(seq![at] + path.drop_first() =~= path);
        assert(outer[i] == leaf);
    }
}

proof fn lemma_leaf_append(
    a: Seq<Leaf>,
    b: Seq<Leaf>,
    path: Seq<int>,
    handle: ResourceAny,
    resource: ResourceType,
)
    ensures
        is_leaf(a + b, path, handle, resource) <==> is_leaf(a, path, handle, resource) || is_leaf(
            b,
            path,
            handle,
            resource,
        ),
{
    let leaf = Leaf { path, handle, ty: resource };
    if (a + b).contains(leaf) {
        let i = choose|i: int| 0 <= i < (a + b).len() && (a + b)[i] == leaf;
        if i < a.len() {
            assert(a[i] == leaf);
        } else {
            assert(b[i - a.len()] == leaf);
        }
    }
    if a.contains(leaf) {
        let i = choose|i: int| 0 <= i < a.len() && a[i] == leaf;
        assert((a + b)[i] == leaf);
    }
    if b.contains(leaf) {
        let i = choose|i: int| 0 <= i < b.len() && b[i] == leaf;
        assert((a + b)[a.len() + i] == leaf);
    }
}

/// The leaves of the only part of a value.
proof fn lemma_payload_reached(
    inner: TypeTree,
    value: ValueTree,
    payload: ValueTree,
    path: Seq<int>,
    handle: ResourceAny,
    resource: ResourceType,
)
    ensures
        is_leaf(
            all_under(0, reached(inner, payload)),
            path,
            handle,
            resource,
        ) <==> path.len() > 0 && path[0] == 0 && is_leaf(
            reached(inner, payload),
            path.drop_first(),
            handle,
            resource,
        ),
{
    lemma_leaf_under(0, reached(inner, payload), path, handle, resource);
}

/// The leaves of the parts of a record or tuple.
proof fn lemma_parts_reached(
    types: Seq<TypeTree>,
    value: ValueTree,
    path: Seq<int>,
    handle: ResourceAny,
    resource: ResourceType,
)
    ensures
        is_leaf(part_leaves(compile_parts(types), value), path, handle, resource) <==> path.len()
            > 0 && 0 <= path[0] < types.len() && is_leaf(
            reached(types[path[0]], value.child(path[0])),
            path.drop_first(),
            handle,
            resource,
        ),
    decreases types.len(),
{
    lemma_no_leaf(path, handle, resource);
    if types.len() > 0 {
        let n = types.len() - 1;
        let init = types.drop_last();
        lemma_parts_reached(init, value, path, handle, resource);
        lemma_no_leaf(path.drop_first(), handle, resource);
        if path.len() > 0 && 0 <= path[0] < n {
            assert(init[path[0]] == types[path[0]]);
        }
        if let Some(nav) = compile(types.last()) {
            let parts = compile_parts(types);
            assert(parts.drop_last() =~= compile_parts(init));
            let last = leaves(nav, value.child(n));
            lemma_leaf_append(
                part_leaves(compile_parts(init), value),
                all_under(n, last),
                path,
                handle,
                resource,
            );
            lemma_leaf_under(n, last, path, handle, resource);
        }
    }
}

/// The leaves of the elements of a list.
proof fn lemma_items_reached(
    nav: NavTree,
    items: Seq<ValueTree>,
    path: Seq<int>,
    handle: ResourceAny,
    resource: ResourceType,
)
    ensures
        is_leaf(item_leaves(nav, items), path, handle, resource) <==> path.len() > 0 && 0 <= path[0]
            < items.len() && is_leaf(
            leaves(nav, items[path[0]]),
            path.drop_first(),
            handle,
            resource,
        ),
    decreases items.len(),
{
    lemma_no_leaf(path, handle, resource);
    if items.len() > 0 {
        let n = items.len() - 1;
        let init = items.drop_last();
        lemma_items_reached(nav, init, path, handle, resource);
        if path.len() > 0 && 0 <= path[0] < n {
            assert(init[path[0]] == items[path[0]]);
        }
        let last = leaves(nav, items.last());
        lemma_leaf_append(item_leaves(nav, init), all_under(n, last), path, handle, resource);
        lemma_leaf_under(n, last, path, handle, resource);
    }
}

/// A well-formed navigator leads to each place once.
pub proof fn leaves_are_at_different_places(nav: NavTree, value: ValueTree)
    requires
        well_formed(nav),
    ensures
        at_different_places(leaves(nav, value)),
    decreases nav, 0nat, 0nat,
{
    match nav {
        NavTree::Record(parts) => parts_are_at_different_places(parts, value),
        NavTree::Tuple(parts) => parts_are_at_different_places(parts, value),
        NavTree::List(inner) => {
            if let ValueTree::List(items) = value {
                lemma_items_are_apart(*inner, items);
            }
        },
        NavTree::Option(inner) => {
            if let ValueTree::Option(Some(payload)) = value {
                leaves_are_at_different_places(*inner, *payload);
                lemma_apart_under(0, leaves(*inner, *payload));
            }
        },
        NavTree::Result(ok, err) => match value {
            ValueTree::Result(Ok(Some(payload))) => {
                if let Some(inner) = ok {
                    leaves_are_at_different_places(*inner, *payload);
                    lemma_apart_under(0, leaves(*inner, *payload));
                }
            },
            ValueTree::Result(Err(Some(payload))) => {
                if let Some(inner) = err {
                    leaves_are_at_different_places(*inner, *payload);
                    lemma_apart_under(0, leaves(*inner, *payload));
                }
            },
            _ => {},
        },
        NavTree::Variant(cases) => {
            if let ValueTree::Variant(case, Some(payload)) = value {
                if let Some(i) = position(case_names(cases), case) {
                    if 0 <= i < cases.len() && cases[i].1 is Some {
                        leaves_are_at_different_places(cases[i].1->0, *payload);
                        lemma_apart_under(0, leaves(cases[i].1->0, *payload));
                    }
                }
            }
        },
        _ => {},
    }
}

/// Well-formed parts lead to each place once, each to places inside the value's part
/// at its position.
pub proof fn parts_are_at_different_places(parts: Seq<(int, NavTree)>, value: ValueTree)
    requires
        parts_well_formed(parts),
    ensures
        at_different_places(part_leaves(parts, value)),
        forall|i: int|
            0 <= i < part_leaves(parts, value).len() ==> (
            #[trigger] part_leaves(parts, value)[i]).path.len() > 0 && exists|j: int|
                0 <= j < parts.len() && (#[trigger] parts[j]).0 == part_leaves(
                    parts,
                    value,
                )[i].path[0],
    decreases parts, 1nat, parts.len(),
{
    if parts.len() > 0 {
        let init = parts.drop_last();
        let last = parts.last();
        assert(parts[parts.len() - 1] == last);
        assert(forall|i: int| 0 <= i < init.len() ==> init[i] == parts[i]);
        assert(parts_well_formed(init)) by {
            assert forall|i: int| 0 <= i < init.len() implies well_formed((#[trigger] init[i]).1) by {
                assert(well_formed(parts[i].1));
            }
            assert forall|i: int, j: int| 0 <= i < j < init.len() implies (#[trigger] init[i]).0 < (
            #[trigger] init[j]).0 by {
                assert(parts[i].0 < parts[j].0);
            }
        }
        parts_are_at_different_places(init, value);
        let before = part_leaves(init, value);
        let inner = leaves(last.1, value.child(last.0));
        let here = all_under(last.0, inner);
        leaves_are_at_different_places(last.1, value.child(last.0));
        lemma_apart_under(last.0, inner);
        assert forall|i: int, j: int|
            0 <= i < before.len() && 0 <= j < here.len() implies (#[trigger] before[i]).path != (
        #[trigger] here[j]).path by {
            let part = choose|part: int|
                0 <= part < init.len() && (#[trigger] init[part]).0 == before[i].path[0];
            assert(parts[part].0 < parts[parts.len() - 1].0);
            assert(here[j].path[0] == last.0);
        }
        lemma_apart_append(before, here);
        let all = part_leaves(parts, value);
        assert forall|i: int| 0 <= i < all.len() implies (#[trigger] all[i]).path.len() > 0
            && exists|j: int|
            0 <= j < parts.len() && (#[trigger] parts[j]).0 == all[i].path[0] by {
            if i < before.len() {
                assert(all[i] == before[i]);
                let part = choose|part: int|
                    0 <= part < init.len() && (#[trigger] init[part]).0 == before[i].path[0];
                assert(parts[part].0 == all[i].path[0]);
            } else {
                assert(all[i] == here[i - before.len()]);
                assert(parts[parts.len() - 1].0 == all[i].path[0]);
            }
        }
    }
}

proof fn lemma_items_are_apart(inner: NavTree, items: Seq<ValueTree>)
    requires
        well_formed(inner),
    ensures
        at_different_places(item_leaves(inner, items)),
        forall|i: int|
            0 <= i < item_leaves(inner, items).len() ==> (
            #[trigger] item_leaves(inner, items)[i]).path.len() > 0 && item_leaves(
                inner,
                items,
            )[i].path[0] < items.len(),
    decreases inner, 1nat, items.len(),
{
    if items.len() > 0 {
        let init = items.drop_last();
        let n = items.len() - 1;
        lemma_items_are_apart(inner, init);
        let before = item_leaves(inner, init);
        let here = all_under(n, leaves(inner, items.last()));
        leaves_are_at_different_places(inner, items.last());
        lemma_apart_under(n, leaves(inner, items.last()));
        lemma_apart_append(before, here);
        let all = item_leaves(inner, items);
        assert forall|i: int| 0 <= i < all.len() implies (#[trigger] all[i]).path.len() > 0
            && all[i].path[0] < items.len() by {
            if i < before.len() {
                assert(all[i] == before[i]);
            } else {
                assert(all[i] == here[i - before.len()]);
            }
        }
    }
}

proof fn lemma_apart_under(k: int, inner: Seq<Leaf>)
    requires
        at_different_places(inner),
    ensures
        at_different_places(all_under(k, inner)),
        forall|i: int|
            0 <= i < inner.len() ==> (#[trigger] all_under(k, inner)[i]).path.len() > 0
                && all_under(k, inner)[i].path[0] == k,
{
    let outer = all_under(k, inner);
    assert forall|i: int, j: int| 0 <= i < j < outer.len() implies (#[trigger] outer[i]).path != (
    #[trigger] outer[j]).path by {
        assert(inner[i].path != inner[j].path);
        assert(outer[i].path.drop_first() =~= inner[i].path);
        assert(outer[j].path.drop_first() =~= inner[j].path);
    }
}

proof fn lemma_apart_append(a: Seq<Leaf>, b: Seq<Leaf>)
    requires
        at_different_places(a),
        at_different_places(b),
        forall|i: int, j: int|
            0 <= i < a.len() && 0 <= j < b.len() ==> (#[trigger] a[i]).path != (
            #[trigger] b[j]).path,
    ensures
        at_different_places(a + b),
{
    let c = a + b;
    assert forall|i: int, j: int| 0 <= i < j < c.len() implies (#[trigger] c[i]).path != (
    #[trigger] c[j]).path by {
        if j < a.len() {
            assert(c[i] == a[i] && c[j] == a[j]);
        } else if i < a.len() {
            assert(c[i] == a[i] && c[j] == b[j - a.len()]);
        } else {
            assert(c[i] == b[i - a.len()] && c[j] == b[j - a.len()]);
        }
    }
}

// ---------------------------------------------------------------------------
// Arguments and results
// ---------------------------------------------------------------------------

/// The mapper of a function leads to each place once.
pub proof fn mappers_are_well_formed(signature: SignatureTree)
    ensures
        parts_well_formed(mapper_of(signature).params),
        parts_well_formed(mapper_of(signature).results),
{
    lemma_compiled_parts(signature.params);
    lemma_compiled_parts(signature.results);
}

/// An argument that stands for a proxy number becomes the producer's handle that the
/// table holds under that number, whatever number it is. An argument that stands for
/// none, or for one that the table does not hold, stays as it is, and so does
/// everything else.
pub proof fn arguments_become_the_producers_handles(
    parts: Seq<(int, NavTree)>,
    value: ValueTree,
    ids: Seq<Option<u32>>,
    proxies: Map<u32, ResourceAny>,
    i: int,
)
    requires
        parts_well_formed(parts),
        parts_fit(parts, value),
        ids.len() == part_leaves(parts, value).len(),
    ensures
        ({
            let places = part_leaves(parts, value);
            let after = with_handles(value, places, resolved_handles(places, ids, proxies));
            &&& 0 <= i < ids.len() ==> part_at(after, places[i].path) == Some(
                ValueTree::Resource(
                    if ids[i] is Some && proxies.dom().contains(ids[i]->0) {
                        proxies[ids[i]->0]
                    } else {
                        places[i].handle
                    },
                ),
            )
            &&& forall|path: Seq<int>| #[trigger]
                part_at(value, path) is Some && is_end(part_at(value, path)->0) && (forall|j: int|
                    0 <= j < places.len() ==> (#[trigger] places[j]).path != path) ==> part_at(
                    after,
                    path,
                ) == part_at(value, path)
            &&& same_but_handles(value, after)
        }),
{
    let places = part_leaves(parts, value);
    lemma_parts_are_in(parts, value);
    parts_are_at_different_places(parts, value);
    handles_go_to_their_places(value, places, resolved_handles(places, ids, proxies));
    if 0 <= i < ids.len() {
        assert(part_at(value, places[i].path) is Some);
    }
}

/// The importer has registered the resource type `ty` under the number `number`.
pub open spec fn is_registered(
    map: Seq<(ResourceType, u32)>,
    ty: ResourceType,
    number: u32,
) -> bool {
    exists|i: int| 0 <= i < map.len() && #[trigger] map[i] == (ty, number)
}

/// A resource type has a number just where it has been registered, and the number is
/// one under which it was.
pub proof fn registered_types_have_their_number(map: Seq<(ResourceType, u32)>, ty: ResourceType)
    ensures
        registered(map, ty) is Some <==> exists|i: int|
            0 <= i < map.len() && (#[trigger] map[i]).0 == ty,
        registered(map, ty) matches Some(number) ==> is_registered(map, ty, number) && exists|i: int|
            0 <= i < map.len() && #[trigger] map[i] == (ty, number) && forall|j: int|
                0 <= j < i ==> (#[trigger] map[j]).0 != ty,
    decreases map.len(),
{
    if map.len() > 0 {
        let init = map.drop_last();
        registered_types_have_their_number(init, ty);
        assert(forall|i: int| 0 <= i < init.len() ==> init[i] == map[i]);
        assert(map[map.len() - 1] == map.last());
        if registered(init, ty) is Some {
            let number = registered(init, ty)->0;
            let i = choose|i: int|
                0 <= i < init.len() && #[trigger] init[i] == (ty, number) && forall|j: int|
                    0 <= j < i ==> (#[trigger] init[j]).0 != ty;
            assert(map[i] == (ty, number));
            assert forall|j: int| 0 <= j < i implies (#[trigger] map[j]).0 != ty by {
                assert(init[j].0 != ty);
            }
        } else if map.last().0 == ty {
            assert(map[map.len() - 1] == (ty, map.last().1));
            assert forall|j: int| 0 <= j < map.len() - 1 implies (#[trigger] map[j]).0 != ty by {
                assert(init[j].0 == map[j].0);
            }
        }
    }
}

/// The handle `after` is a proxy for `before`: an owned handle of the consumer to a
/// resource of a type that was registered for `ty`, and the table holds `before`
/// under a number for which it can stand and which was free.
pub open spec fn is_proxy_for(
    map: Seq<(ResourceType, u32)>,
    ty: ResourceType,
    before: ResourceAny,
    after: ResourceAny,
    table: ResourceTable,
    left: ResourceTable,
) -> bool {
    &&& handle_owned(after)
    &&& exists|number: u32| #[trigger]
        is_registered(map, ty, number) && handle_type(after) == host_type(number)
    &&& exists|id: u32| #[trigger]
        stands_for(after, id) && !table_handles(table).dom().contains(id) && table_handles(
            left,
        ).contains_pair(id, before)
}

/// If the results of a call are proxied with success, each handle whose resource type
/// is registered becomes a proxy, under which the table holds it; each other handle
/// stays as it is, and so does everything else. The table keeps what it held.
pub proof fn results_become_proxies(
    parts: Seq<(int, NavTree)>,
    map: Seq<(ResourceType, u32)>,
    before: ValueTree,
    after: ValueTree,
    table: ResourceTable,
    left: ResourceTable,
    i: int,
)
    requires
        parts_well_formed(parts),
        parts_fit(parts, before),
        results_proxied(parts, map, before, after, table, left, Ok(())),
    ensures
        ({
            let places = part_leaves(parts, before);
            &&& 0 <= i < places.len() ==> part_at(after, places[i].path) is Some && part_at(
                after,
                places[i].path,
            )->0 is Resource
            &&& 0 <= i < places.len() ==> {
                let handle = part_at(after, places[i].path)->0->Resource_0;
                if exists|j: int| 0 <= j < map.len() && (#[trigger] map[j]).0 == places[i].ty {
                    is_proxy_for(map, places[i].ty, places[i].handle, handle, table, left)
                } else {
                    handle == places[i].handle
                }
            }
            &&& forall|path: Seq<int>| #[trigger]
                part_at(before, path) is Some && is_end(part_at(before, path)->0) && (forall|j: int|
                    0 <= j < places.len() ==> (#[trigger] places[j]).path != path) ==> part_at(
                    after,
                    path,
                ) == part_at(before, path)
            &&& same_but_handles(before, after)
            &&& table_handles(table).submap_of(table_handles(left))
        }),
{
    let places = part_leaves(parts, before);
    let held = proxies_in(table);
    let holds = proxies_in(left);
    let visits = choose|visits: Seq<Visit<ResourceAny>>|
        {
            &&& #[trigger] remapped(places, visits, before, after, held, holds, Ok(()))
            &&& forall|k: int| 0 <= k < visits.len() ==> results_rule(map, #[trigger] visits[k])
        };
    lemma_parts_are_in(parts, before);
    parts_are_at_different_places(parts, before);
    handles_go_to_their_places(before, places, handles_left(visits));
    proxies_are_kept(map, held, visits, holds);
    if 0 <= i < places.len() {
        let visit = visits[i];
        assert(handles_left(visits)[i] == visit.after);
        assert(part_at(before, places[i].path) is Some);
        assert(results_rule(map, visit));
        assert(visit.outcome is Ok);
        registered_types_have_their_number(map, places[i].ty);
        lemma_held_afterwards(map, held, visits, holds, i);
        if let Some(number) = registered(map, places[i].ty) {
            assert(is_registered(map, places[i].ty, number));
            let id = choose|id: u32| #[trigger] proxied(visit, id) && stands_for(visit.after, id);
            assert(visit.holds.handles.contains_pair(id, visit.before));
            assert(stands_for(visit.after, id));
            assert(!held.handles.dom().contains(id)) by {
                if held.handles.dom().contains(id) {
                    assert(visit.held.handles.dom().contains(id));
                }
            }
            assert(holds.handles.contains_pair(id, visit.before)) by {
                assert(holds.handles.dom().contains(id));
            }
        }
    }
}

/// What the table holds before and after one of the calls.
proof fn lemma_held_afterwards(
    map: Seq<(ResourceType, u32)>,
    held: ProxyState,
    visits: Seq<Visit<ResourceAny>>,
    holds: ProxyState,
    i: int,
)
    requires
        chained(held, visits, holds),
        forall|k: int| 0 <= k < visits.len() ==> results_rule(map, #[trigger] visits[k]),
        0 <= i < visits.len(),
    ensures
        held.handles.submap_of(visits[i].held.handles),
        visits[i].holds.handles.submap_of(holds.handles),
    decreases visits.len(),
{
    let init = visits.drop_last();
    let last = visits.last();
    assert forall|k: int| 0 <= k < init.len() implies results_rule(map, #[trigger] init[k]) by {
        assert(init[k] == visits[k]);
    }
    if i < visits.len() - 1 {
        assert(init[i] == visits[i]);
        lemma_held_afterwards(map, held, init, last.held, i);
        assert(visits[visits.len() - 1] == last);
        assert(seq![last].drop_last() =~= Seq::empty());
        reveal_with_fuel(chained, 2);
        assert(chained(last.held, seq![last], last.holds));
        assert forall|k: int| 0 <= k < seq![last].len() implies results_rule(
            map,
            #[trigger] seq![last][k],
        ) by {
            assert(results_rule(map, visits[visits.len() - 1]));
        }
        proxies_are_kept(map, last.held, seq![last], last.holds);
        let a = visits[i].holds.handles;
        let b = last.held.handles;
        let c = holds.handles;
        assert forall|id: u32| #[trigger] a.dom().contains(id) implies c.dom().contains(id) && c[id]
            == a[id] by {
            assert(b.dom().contains(id) && b[id] == a[id]);
        }
    } else {
        proxies_are_kept(map, held, init, last.held);
    }
}

/// The mapper of a function leads to every place in its arguments and results at which
/// their types ask for a handle, however deep inside, and to no other place.
pub proof fn mappers_reach_every_handle(
    signature: SignatureTree,
    params: Seq<Value>,
    results: Seq<Value>,
    path: Seq<int>,
    handle: ResourceAny,
    resource: ResourceType,
)
    ensures
        have_types(signature.params, params) ==> (is_leaf(
            part_leaves(mapper_of(signature).params, row(params)),
            path,
            handle,
            resource,
        ) <==> is_handle_at(
            TypeTree::Tuple(signature.params),
            row(params),
            path,
            handle,
            resource,
        )),
        have_types(signature.results, results) ==> (is_leaf(
            part_leaves(mapper_of(signature).results, row(results)),
            path,
            handle,
            resource,
        ) <==> is_handle_at(
            TypeTree::Tuple(signature.results),
            row(results),
            path,
            handle,
            resource,
        )),
{
    if have_types(signature.params, params) {
        lemma_row_reached(signature.params, params, path, handle, resource);
    }
    if have_types(signature.results, results) {
        lemma_row_reached(signature.results, results, path, handle, resource);
    }
}

proof fn lemma_row_reached(
    types: Seq<TypeTree>,
    values: Seq<Value>,
    path: Seq<int>,
    handle: ResourceAny,
    resource: ResourceType,
)
    requires
        have_types(types, values),
    ensures
        is_leaf(
            part_leaves(compile_parts(types), row(values)),
            path,
            handle,
            resource,
        ) <==> is_handle_at(TypeTree::Tuple(types), row(values), path, handle, resource),
{
    let ty = TypeTree::Tuple(types);
    assert(has_type(ty, row(values)));
    every_handle_is_reached(ty, row(values), path, handle, resource);
    assert(part_leaves(Seq::empty(), row(values)) =~= Seq::empty());
    if compile_parts(types).len() == 0 {
        assert(compile_parts(types) =~= Seq::empty());
    }
}

/// If proxying the results of a call fails, it fails at one of their handles. The handles
/// before it have become proxies or stayed, that one and all after it are as they
/// were, and so is everything else. The table keeps what it held, and was full if this
/// is the error.
pub proof fn a_failure_leaves_the_rest(
    parts: Seq<(int, NavTree)>,
    map: Seq<(ResourceType, u32)>,
    before: ValueTree,
    after: ValueTree,
    table: ResourceTable,
    left: ResourceTable,
    error: VisitError,
)
    requires
        parts_well_formed(parts),
        parts_fit(parts, before),
        results_proxied(parts, map, before, after, table, left, Err(error)),
    ensures
        ({
            let places = part_leaves(parts, before);
            &&& exists|n: int|
                {
                    &&& 0 <= n < places.len()
                    &&& registered(map, (#[trigger] places[n]).ty) is Some
                    &&& forall|i: int|
                        n <= i < places.len() ==> part_at(after, (#[trigger] places[i]).path)
                            == Some(ValueTree::Resource(places[i].handle))
                }
            &&& same_but_handles(before, after)
            &&& table_handles(table).submap_of(table_handles(left))
            &&& error is TableFull ==> table_room(left) == 0
        }),
{
    let places = part_leaves(parts, before);
    let held = proxies_in(table);
    let holds = proxies_in(left);
    let outcome = Err::<(), VisitError>(error);
    let visits = choose|visits: Seq<Visit<ResourceAny>>|
        {
            &&& #[trigger] remapped(places, visits, before, after, held, holds, outcome)
            &&& forall|k: int| 0 <= k < visits.len() ==> results_rule(map, #[trigger] visits[k])
        };
    lemma_parts_are_in(parts, before);
    parts_are_at_different_places(parts, before);
    handles_go_to_their_places(before, places, handles_left(visits));
    proxies_are_kept(map, held, visits, holds);
    let n = visits.len() - 1;
    let visit = visits[n];
    assert(results_rule(map, visit));
    assert(visit.before == places[n].handle && visit.ty == places[n].ty);
    assert(registered(map, places[n].ty) is Some);
    assert(handles_left(visits)[n] == visit.after);
    assert forall|i: int| n <= i < places.len() implies part_at(after, (#[trigger] places[i]).path)
        == Some(ValueTree::Resource(places[i].handle)) by {}
}

} // verus!
