//! What holds of everything that a component exports.

use vstd::prelude::*;
use wasmtime::component::types::{ComponentFunc, ComponentInstance};
use wasmtime::component::{Component, ComponentExportIndex};

use crate::composable::{
    import_plan, Composable, ComposableComponent, ComposableInstance, Linkable, Typed,
};
use crate::composition::{export_of, Composition, NodeTree};
use crate::describe::{describe_items, describes_item, exports_are_read_in_one_way, ItemTree};
use crate::filtered::Filtered;
use crate::instance::{
    core_of, export_plan, function_named, lookup, table_export_plan, target_of, CoreView,
    FuncTarget,
};
use crate::error::ErrorView;
use crate::hints::hint_for;
use crate::link::{failure, item_plan, OpView, PlanView};
use crate::names::{lemma_position, position};
use crate::table_link::{table_item_plan, ProxyScheme, TableOpView};
use crate::wasm::{
    entry_names, export_index_of, exports_of, imports_of, instance_exports_of, is_async,
    item_shape_of, ItemShape,
};

verus! {

// ---------------------------------------------------------------------------
// Finding functions
// ---------------------------------------------------------------------------

/// Every function that a component exports by itself and has an export index for is
/// found under its name, at that index, and as `async` as it is declared.
pub proof fn exported_functions_are_found(
    component: Component,
    core: CoreView,
    i: int,
    func: ComponentFunc,
    index: ComponentExportIndex,
)
    requires
        core_of(component, core),
        entry_names(exports_of(component)).no_duplicates(),
        0 <= i < exports_of(component).len(),
        item_shape_of(exports_of(component)[i].1) == ItemShape::Func(func),
        export_index_of(component, None, exports_of(component)[i].0) == Some(index),
    ensures
        target_of(component, core.exports, None, exports_of(component)[i].0) == Some(
            FuncTarget { index, is_async: is_async(func) },
        ),
{
    lemma_described(component, core, i);
    lemma_lookup(core.exports, i);
}

/// Every function among the exports of an instance that a component exports, for
/// which it has an export index in that instance, is found under the names of both,
/// at that index, and as `async` as it is declared.
pub proof fn functions_of_exported_instances_are_found(
    component: Component,
    core: CoreView,
    i: int,
    instance: ComponentInstance,
    parent: ComponentExportIndex,
    j: int,
    func: ComponentFunc,
    index: ComponentExportIndex,
)
    requires
        core_of(component, core),
        entry_names(exports_of(component)).no_duplicates(),
        0 <= i < exports_of(component).len(),
        item_shape_of(exports_of(component)[i].1) == ItemShape::Instance(instance),
        export_index_of(component, None, exports_of(component)[i].0) == Some(parent),
        entry_names(instance_exports_of(instance, component)).no_duplicates(),
        0 <= j < instance_exports_of(instance, component).len(),
        item_shape_of(instance_exports_of(instance, component)[j].1) == ItemShape::Func(func),
        export_index_of(
            component,
            Some(parent),
            instance_exports_of(instance, component)[j].0,
        ) == Some(index),
    ensures
        target_of(
            component,
            core.exports,
            Some(exports_of(component)[i].0),
            instance_exports_of(instance, component)[j].0,
        ) == Some(FuncTarget { index, is_async: is_async(func) }),
{
    lemma_described(component, core, i);
    lemma_lookup(core.exports, i);
    let inner = instance_exports_of(instance, component);
    let children = core.exports[i].1->Instance_0;
    assert(describe_items(component, inner, children));
    assert(inner[j].0 == children[j].0 && describes_item(component, inner[j].1, children[j].1));
    assert(entry_names(children) =~= entry_names(inner));
    lemma_function_named(children, j);
}

/// Only exported functions are found: one that the component exports by itself, or
/// one among the exports of an instance that it exports.
pub proof fn only_exported_functions_are_found(
    component: Component,
    core: CoreView,
    interface: Option<Seq<char>>,
    func: Seq<char>,
)
    requires
        core_of(component, core),
        target_of(component, core.exports, interface, func) is Some,
    ensures
        ({
            let found = target_of(component, core.exports, interface, func)->0;
            match interface {
                None => export_index_of(component, None, func) == Some(found.index) && exists|i: int|
                    0 <= i < exports_of(component).len() && (
                    #[trigger] exports_of(component)[i]).0 == func && item_shape_of(
                        exports_of(component)[i].1,
                    ) is Func,
                Some(interface) => {
                    &&& export_index_of(component, None, interface) is Some
                    &&& export_index_of(
                        component,
                        export_index_of(component, None, interface),
                        func,
                    ) == Some(found.index)
                    &&& exists|i: int, j: int|
                        0 <= i < exports_of(component).len() && exports_of(component)[i].0
                            == interface && item_shape_of(exports_of(component)[i].1) is Instance
                            && #[trigger] is_function_of(
                            component,
                            item_shape_of(exports_of(component)[i].1)->Instance_0,
                            j,
                            func,
                        )
                },
            }
        }),
{
    let key = match interface {
        None => func,
        Some(interface) => interface,
    };
    lemma_position(entry_names(core.exports), key);
    let i = position(entry_names(core.exports), key)->0;
    lemma_described(component, core, i);
    assert(entry_names(core.exports)[i] == core.exports[i].0);
    if interface is Some {
        let children = core.exports[i].1->Instance_0;
        let j = lemma_function_found(children, func);
        let instance = item_shape_of(exports_of(component)[i].1)->Instance_0;
        let inner = instance_exports_of(instance, component);
        assert(describe_items(component, inner, children));
        assert(inner[j].0 == children[j].0 && describes_item(component, inner[j].1, children[j].1));
        assert(is_function_of(
            component,
            item_shape_of(exports_of(component)[i].1)->Instance_0,
            j,
            func,
        ));
    }
}

/// The export number `j` of `instance` is a function named `func`.
pub open spec fn is_function_of(
    component: Component,
    instance: ComponentInstance,
    j: int,
    func: Seq<char>,
) -> bool {
    &&& 0 <= j < instance_exports_of(instance, component).len()
    &&& instance_exports_of(instance, component)[j].0 == func
    &&& item_shape_of(instance_exports_of(instance, component)[j].1) is Func
}

// ---------------------------------------------------------------------------
// Linking exports
// ---------------------------------------------------------------------------

/// What is exported is linked as the item that it is, with or without shared proxies;
/// what is not exported fails before anything is registered.
pub proof fn exports_are_linked_as_what_they_are(
    component: Component,
    exports: Seq<(Seq<char>, ItemTree)>,
    i: int,
    name: Seq<char>,
    scheme: ProxyScheme,
    next: u32,
)
    requires
        entry_names(exports).no_duplicates(),
    ensures
        0 <= i < exports.len() ==> {
            &&& export_plan(component, exports, exports[i].0) == item_plan(
                component,
                None,
                exports[i].0,
                exports[i].1,
            )
            &&& table_export_plan(scheme, component, exports, exports[i].0, next)
                == table_item_plan(
                scheme,
                component,
                None,
                exports[i].0,
                exports[i].1,
                None,
                next,
            )
        },
        !entry_names(exports).contains(name) ==> {
            &&& export_plan(component, exports, name).outcome is Err
            &&& export_plan(component, exports, name).ops == Seq::<OpView>::empty()
            &&& table_export_plan(scheme, component, exports, name, next).outcome is Err
            &&& table_export_plan(scheme, component, exports, name, next).ops == Seq::<
                TableOpView,
            >::empty()
            &&& table_export_plan(scheme, component, exports, name, next).next == next
        },
{
    if 0 <= i < exports.len() {
        lemma_lookup(exports, i);
    }
    lemma_position(entry_names(exports), name);
}

/// An instance that exists already reports the exports of its component and no
/// imports, and each export is linked as the item that the component exports under
/// that name. It does not accept imports.
pub proof fn instances_link_what_their_component_exports(
    component: Component,
    instance: ComposableInstance,
    i: int,
    name: Seq<char>,
    exported: PlanView,
)
    requires
        core_of(component, instance@),
        entry_names(exports_of(component)).no_duplicates(),
    ensures
        instance.type_view().exports == entry_names(exports_of(component)),
        instance.type_view().imports == Seq::<Seq<char>>::empty(),
        0 <= i < exports_of(component).len() ==> {
            &&& describes_item(component, exports_of(component)[i].1, instance@.exports[i].1)
            &&& instance.plan_view(exports_of(component)[i].0) == item_plan(
                component,
                None,
                exports_of(component)[i].0,
                instance@.exports[i].1,
            )
        },
        !instance.type_view().exports.contains(name) ==> {
            &&& instance.plan_view(name).outcome is Err
            &&& instance.plan_view(name).ops == Seq::<OpView>::empty()
        },
        import_plan(instance.accepts_imports(), exported).outcome is Err,
        import_plan(instance.accepts_imports(), exported).ops == Seq::<OpView>::empty(),
{
    assert(entry_names(instance@.exports) =~= entry_names(exports_of(component)));
    exports_are_linked_as_what_they_are(
        component,
        instance@.exports,
        i,
        name,
        ProxyScheme::PerInstance,
        0,
    );
    if 0 <= i < exports_of(component).len() {
        lemma_described(component, instance@, i);
    }
}

/// A component reports its exports and imports, and each export is linked as the item
/// that it exports under that name. An import is linked as its exporter plans it.
pub proof fn components_link_what_they_export(
    component: Component,
    composable: ComposableComponent,
    i: int,
    name: Seq<char>,
    exported: PlanView,
)
    requires
        core_of(component, composable@),
        entry_names(exports_of(component)).no_duplicates(),
    ensures
        composable.type_view().exports == entry_names(exports_of(component)),
        composable.type_view().imports == imports_of(component),
        0 <= i < exports_of(component).len() ==> {
            &&& describes_item(component, exports_of(component)[i].1, composable@.exports[i].1)
            &&& composable.plan_view(exports_of(component)[i].0) == item_plan(
                component,
                None,
                exports_of(component)[i].0,
                composable@.exports[i].1,
            )
        },
        !composable.type_view().exports.contains(name) ==> {
            &&& composable.plan_view(name).outcome is Err
            &&& composable.plan_view(name).ops == Seq::<OpView>::empty()
        },
        import_plan(composable.accepts_imports(), exported) == exported,
{
    assert(entry_names(composable@.exports) =~= entry_names(exports_of(component)));
    exports_are_linked_as_what_they_are(
        component,
        composable@.exports,
        i,
        name,
        ProxyScheme::PerInstance,
        0,
    );
    if 0 <= i < exports_of(component).len() {
        lemma_described(component, composable@, i);
    }
}

/// An instance and a component that is not instantiated yet link every export in the
/// same way, if they are of the same component.
pub proof fn instances_and_components_link_alike(
    component: Component,
    instance: ComposableInstance,
    composable: ComposableComponent,
    name: Seq<char>,
)
    requires
        core_of(component, instance@),
        core_of(component, composable@),
    ensures
        instance.plan_view(name) == composable.plan_view(name),
{
    exports_are_read_in_one_way(
        component,
        exports_of(component),
        instance@.exports,
        composable@.exports,
    );
}

/// A running component whose exports are not filtered links each of them as the item
/// that the component exports under that name.
pub proof fn running_components_link_what_they_export<H>(
    component: Component,
    core: CoreView,
    handle: H,
    composition: Composition<H>,
    i: int,
)
    requires
        core_of(component, core),
        entry_names(exports_of(component)).no_duplicates(),
        composition.tree() == (NodeTree::Instance { core, handle, exports: core.ty.exports }),
        0 <= i < exports_of(component).len(),
    ensures
        composition.plan_view(exports_of(component)[i].0) == item_plan(
            component,
            None,
            exports_of(component)[i].0,
            core.exports[i].1,
        ),
{
    lemma_described(component, core, i);
    lemma_lookup(core.exports, i);
    assert(entry_names(exports_of(component))[i] == exports_of(component)[i].0);
}

/// A group of running compositions links an export that it offers as the child does
/// that provides it.
pub proof fn groups_link_what_their_children_link<H>(
    composition: Composition<H>,
    children: Seq<(Seq<char>, NodeTree<H>)>,
    providers: Seq<(Seq<char>, Seq<char>)>,
    exports: Seq<Seq<char>>,
    name: Seq<char>,
    i: int,
)
    requires
        composition.tree() == (NodeTree::Group { children, providers, exports }),
        exports.contains(name),
        entry_names(children).no_duplicates(),
        0 <= i < children.len(),
        hint_for(providers, name) == Some(children[i].0),
    ensures
        composition.plan_view(name) == match export_of(children[i].1, name) {
            Some((plan, _)) => plan,
            None => failure(ErrorView::FuncNotFound),
        },
        export_of(composition.tree(), name) == export_of(children[i].1, name),
{
    assert(entry_names(children)[i] == children[i].0);
    lemma_position(entry_names(children), children[i].0);
}

/// Anything with a type signature reports that one.
pub proof fn types_are_reported_as_given<P>(typed: Typed<P>)
    ensures
        typed.type_view() == typed.ty@,
{
}

/// A running composition does not accept imports.
pub proof fn compositions_accept_no_imports<H>(composition: Composition<H>, exported: PlanView)
    ensures
        import_plan(composition.accepts_imports(), exported).outcome is Err,
        import_plan(composition.accepts_imports(), exported).ops == Seq::<OpView>::empty(),
{
}

/// What a filter keeps is linked as the composable inside links it, and imports are
/// accepted as the composable inside accepts them.
pub proof fn kept_exports_are_linked_as_before<C: Linkable>(
    filtered: Filtered<C>,
    name: Seq<char>,
    exported: PlanView,
)
    ensures
        filtered.type_view().exports.contains(name) ==> filtered.plan_view(name)
            == filtered.inside().plan_view(name),
        import_plan(filtered.accepts_imports(), exported) == import_plan(
            filtered.inside().accepts_imports(),
            exported,
        ),
{
}

// ---------------------------------------------------------------------------
// Lemmas
// ---------------------------------------------------------------------------

/// How an export is described.
proof fn lemma_described(component: Component, core: CoreView, i: int)
    requires
        core_of(component, core),
        0 <= i < core.exports.len(),
    ensures
        i < exports_of(component).len(),
        exports_of(component)[i].0 == core.exports[i].0,
        describes_item(component, exports_of(component)[i].1, core.exports[i].1),
        entry_names(core.exports) == entry_names(exports_of(component)),
{
    assert(exports_of(component)[i].0 == core.exports[i].0);
    assert(entry_names(core.exports) =~= entry_names(exports_of(component)));
}

/// An export is looked up under its name.
proof fn lemma_lookup(exports: Seq<(Seq<char>, ItemTree)>, i: int)
    requires
        entry_names(exports).no_duplicates(),
        0 <= i < exports.len(),
    ensures
        lookup(exports, exports[i].0) == Some(exports[i].1),
{
    let names = entry_names(exports);
    assert(names[i] == exports[i].0);
    lemma_position(names, exports[i].0);
}

/// A function is found under its name.
proof fn lemma_function_named(exports: Seq<(Seq<char>, ItemTree)>, j: int)
    requires
        entry_names(exports).no_duplicates(),
        0 <= j < exports.len(),
        exports[j].1 is Func,
    ensures
        function_named(exports, exports[j].0) == Some(exports[j].1->Func_0),
    decreases exports.len(),
{
    let init = exports.drop_last();
    assert(entry_names(init) =~= entry_names(exports).drop_last());
    if j < exports.len() - 1 {
        assert(init[j] == exports[j]);
        lemma_function_named(init, j);
    } else {
        if function_named(init, exports[j].0) is Some {
            let i = lemma_function_found(init, exports[j].0);
            assert(entry_names(exports)[i] == entry_names(exports)[j]);
        }
    }
}

/// A function that is found is one of the exports.
proof fn lemma_function_found(exports: Seq<(Seq<char>, ItemTree)>, name: Seq<char>) -> (j: int)
    requires
        function_named(exports, name) is Some,
    ensures
        0 <= j < exports.len(),
        exports[j].0 == name,
        exports[j].1 is Func,
        function_named(exports, name) == Some(exports[j].1->Func_0),
    decreases exports.len(),
{
    let init = exports.drop_last();
    if function_named(init, name) is Some {
        let j = lemma_function_found(init, name);
        assert(init[j] == exports[j]);
        j
    } else {
        exports.len() - 1
    }
}

} // verus!
