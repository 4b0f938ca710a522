//! Composables that are backed by a component.

use vstd::prelude::*;
use wasmtime::component::{Component, ComponentExportIndex};

use crate::describe::{describe_items, item_trees, read_items, ItemTree, ItemType};
use crate::error::{message, texts, CompositionError, ErrorView};
use crate::interface::{ComposableType, InterfaceSet, TypeView};
use crate::link::{failure, item_plan, link_export_item, LinkPlan, PlanView};
use crate::mapper::{FuncSignature, SignatureTree};
use crate::names::{find, keys, names_of, position, Named};
use crate::table_link::{
    table_item_plan, ProxyScheme, TablePlan, TablePlanView, TablePlanner,
};
use crate::wasm::{
    component_exports, component_imports, entry_names, export_index, export_index_of, exports_of,
    imports_of, named,
};

verus! {

/// Where an exported function is found, and how it is called.
pub struct FuncTarget {
    /// The place of the function in its component.
    pub index: ComponentExportIndex,
    /// Whether the function is declared `async`.
    pub is_async: bool,
}

// ---------------------------------------------------------------------------
// What is exported
// ---------------------------------------------------------------------------

/// The item that is exported under `name`, if any.
pub open spec fn lookup(exports: Seq<(Seq<char>, ItemTree)>, name: Seq<char>) -> Option<ItemTree> {
    match position(entry_names(exports), name) {
        Some(i) => Some(exports[i].1),
        None => None,
    }
}

/// The type of the first function among `exports` that is named `name`.
pub open spec fn function_named(
    exports: Seq<(Seq<char>, ItemTree)>,
    name: Seq<char>,
) -> Option<SignatureTree>
    decreases exports.len(),
{
    if exports.len() == 0 {
        None
    } else if function_named(exports.drop_last(), name) is Some {
        function_named(exports.drop_last(), name)
    } else if exports.last().0 == name && exports.last().1 is Func {
        Some(exports.last().1->Func_0)
    } else {
        None
    }
}

/// Where the function `func` is found: at the top of `component`, or in the
/// instance that it exports as `interface`.
pub open spec fn target_of(
    component: Component,
    exports: Seq<(Seq<char>, ItemTree)>,
    interface: Option<Seq<char>>,
    func: Seq<char>,
) -> Option<FuncTarget> {
    match interface {
        None => match (lookup(exports, func), export_index_of(component, None, func)) {
            (Some(ItemTree::Func(signature)), Some(index)) => Some(
                FuncTarget { index, is_async: signature.is_async },
            ),
            _ => None,
        },
        Some(interface) => match (
            lookup(exports, interface),
            export_index_of(component, None, interface),
        ) {
            (Some(ItemTree::Instance(children)), Some(instance)) => match (
                function_named(children, func),
                export_index_of(component, Some(instance), func),
            ) {
                (Some(signature), Some(index)) => Some(
                    FuncTarget { index, is_async: signature.is_async },
                ),
                _ => None,
            },
            _ => None,
        },
    }
}

/// The plan that refuses to link `name`, which is not exported.
pub open spec fn not_exported(name: Seq<char>) -> PlanView {
    failure(ErrorView::LinkingError("Export '"@ + name + "' not found"@))
}

/// Refuses to link `name`, which is not exported.
pub fn refuse_export(name: &str) -> (plan: LinkPlan)
    ensures
        plan@ == not_exported(name@),
{
    let error = CompositionError::LinkingError(message("Export '", name, "' not found"));
    let plan = LinkPlan { ops: Vec::new(), outcome: Err(error) };
    assert(plan@.ops =~= Seq::empty());
    plan
}

/// The plan that links the export `name`, or that refuses it where there is no
/// such export.
pub open spec fn export_plan(
    component: Component,
    exports: Seq<(Seq<char>, ItemTree)>,
    name: Seq<char>,
) -> PlanView {
    match lookup(exports, name) {
        Some(item) => item_plan(component, None, name, item),
        None => not_exported(name),
    }
}

/// The plan that links the export `name` with shared proxies, of which the next
/// gets the number `next`.
pub open spec fn table_export_plan(
    scheme: ProxyScheme,
    component: Component,
    exports: Seq<(Seq<char>, ItemTree)>,
    name: Seq<char>,
    next: u32,
) -> TablePlanView {
    match lookup(exports, name) {
        Some(item) => table_item_plan(scheme, component, None, name, item, None, next),
        None => TablePlanView {
            ops: Seq::empty(),
            outcome: Err(ErrorView::LinkingError("Export '"@ + name + "' not found"@)),
            next,
        },
    }
}

// ---------------------------------------------------------------------------
// Reading the exports of a component
// ---------------------------------------------------------------------------

/// A set of the names of `items`, which are all different.
fn set_of<T: Named>(items: &Vec<T>) -> (set: InterfaceSet)
    requires
        names_of(items@).no_duplicates(),
    ensures
        set@ == names_of(items@),
{
    let ghost names = names_of(items@);
    let mut set = InterfaceSet::new();
    let mut i: usize = 0;
    assert(names.take(0) =~= Seq::empty());
    while i < items.len()
        invariant
            i <= items@.len(),
            names == names_of(items@),
            names.no_duplicates(),
            set@ == names.take(i as int),
        decreases items.len() - i,
    {
        let _ = set.insert(items[i].name());
        proof {
            assert(names[i as int] == items@[i as int].name_view());
            assert(!names.take(i as int).contains(names[i as int]));
            assert(names.take(i + 1) =~= names.take(i as int).push(names[i as int]));
        }
        i = i + 1;
    }
    assert(names.take(i as int) =~= names);
    set
}

/// Shared core of [`ComposableInstance`] and [`ComposableComponent`]: a component
/// with what it exports and imports.
pub struct ComposableInstanceCore {
    ty: ComposableType,
    export_types: Vec<(String, ItemType)>,
    component: Component,
}

/// The mathematical view of a [`ComposableInstanceCore`].
pub struct CoreView {
    pub ty: TypeView,
    pub exports: Seq<(Seq<char>, ItemTree)>,
    pub component: Component,
}

impl View for ComposableInstanceCore {
    type V = CoreView;

    closed spec fn view(&self) -> CoreView {
        CoreView {
            ty: self.ty@,
            exports: item_trees(self.export_types@),
            component: self.component,
        }
    }
}

/// `core` is what `component` exports and imports.
pub open spec fn core_of(component: Component, core: CoreView) -> bool {
    &&& core.component == component
    &&& describe_items(component, exports_of(component), core.exports)
    &&& core.ty.exports == entry_names(exports_of(component))
    &&& core.ty.imports == imports_of(component)
}

impl ComposableInstanceCore {
    /// Reads the exports and imports of `component`.
    pub fn new(component: Component) -> (core: Self)
        ensures
            core_of(component, core@),
    {
        let items = component_exports(&component);
        let imports = component_imports(&component);
        proof {
            assert(names_of(items@) =~= entry_names(named(items@)));
            assert(names_of(imports@) =~= texts(imports@));
        }
        let exports = set_of(&items);
        let imports = set_of(&imports);
        let export_types = read_items(&component, items);
        ComposableInstanceCore { ty: ComposableType::new(exports, imports), export_types, component }
    }

    /// What is exported and imported.
    pub fn ty(&self) -> (ty: &ComposableType)
        ensures
            ty@ == self@.ty,
    {
        &self.ty
    }

    /// The component.
    pub fn component(&self) -> (component: &Component)
        ensures
            *component == self@.component,
    {
        &self.component
    }

    /// Plans how the export `name` is linked into an importer.
    pub fn link_export(&self, name: &str) -> (plan: LinkPlan)
        ensures
            plan@ == export_plan(self@.component, self@.exports, name@),
    {
        proof {
            lemma_keys(self.export_types@);
        }
        let i = match find(&self.export_types, name) {
            Some(i) => i,
            None => return refuse_export(name),
        };
        let mut ops = Vec::new();
        let outcome = link_export_item(
            &self.component,
            None,
            name,
            &self.export_types[i].1,
            &mut ops,
        );
        let plan = LinkPlan { ops, outcome };
        assert(plan@.ops =~= export_plan(self@.component, self@.exports, name@).ops);
        plan
    }

    /// Plans how the export `name` is linked into an importer where the resources
    /// of an instance share a proxy. The next proxy gets the number `next`.
    pub fn link_export_shared(&self, name: &str, scheme: ProxyScheme, next: u32) -> (plan: TablePlan)
        ensures
            plan@ == table_export_plan(scheme, self@.component, self@.exports, name@, next),
    {
        proof {
            lemma_keys(self.export_types@);
        }
        let mut planner = TablePlanner::new(scheme, next);
        let outcome = match find(&self.export_types, name) {
            Some(i) => planner.link_export_item(
                &self.component,
                None,
                name,
                &self.export_types[i].1,
                None,
            ),
            None => Err(
                CompositionError::LinkingError(message("Export '", name, "' not found")),
            ),
        };
        let plan = planner.finish(outcome);
        assert(plan@.ops =~= table_export_plan(
            scheme,
            self@.component,
            self@.exports,
            name@,
            next,
        ).ops);
        plan
    }

    /// Finds the exported function `func`: in the instance that is exported as
    /// `interface`, or at the top.
    pub fn get_func(&self, interface: Option<&str>, func: &str) -> (target: Result<
        FuncTarget,
        CompositionError,
    >)
        ensures
            match target_of(
                self@.component,
                self@.exports,
                match interface {
                    Some(interface) => Some(interface@),
                    None => None,
                },
                func@,
            ) {
                Some(found) => target == Ok::<FuncTarget, CompositionError>(found),
                None => target == Err::<FuncTarget, CompositionError>(
                    CompositionError::FuncNotFound,
                ),
            },
    {
        proof {
            lemma_keys(self.export_types@);
        }
        match interface {
            None => {
                let is_async = match find(&self.export_types, func) {
                    Some(i) => match &self.export_types[i].1 {
                        ItemType::Func(signature) => signature.is_async,
                        _ => return Err(CompositionError::FuncNotFound),
                    },
                    None => return Err(CompositionError::FuncNotFound),
                };
                match export_index(&self.component, None, func) {
                    Some(index) => Ok(FuncTarget { index, is_async }),
                    None => Err(CompositionError::FuncNotFound),
                }
            },
            Some(interface) => {
                let children = match find(&self.export_types, interface) {
                    Some(i) => match &self.export_types[i].1 {
                        ItemType::Instance(children) => children,
                        _ => return Err(CompositionError::FuncNotFound),
                    },
                    None => return Err(CompositionError::FuncNotFound),
                };
                let instance = match export_index(&self.component, None, interface) {
                    Some(instance) => instance,
                    None => return Err(CompositionError::FuncNotFound),
                };
                match find_function(children, func) {
                    Some(signature) => match export_index(&self.component, Some(instance), func) {
                        Some(index) => Ok(FuncTarget { index, is_async: signature.is_async }),
                        None => Err(CompositionError::FuncNotFound),
                    },
                    None => Err(CompositionError::FuncNotFound),
                }
            },
        }
    }
}

/// Named items and their views have the same names.
proof fn lemma_keys(items: Seq<(String, ItemType)>)
    ensures
        keys(items) == entry_names(item_trees(items)),
{
    assert(keys(items) =~= entry_names(item_trees(items)));
}

/// Finds the first function among `exports` that is named `name`.
fn find_function<'a>(exports: &'a Vec<(String, ItemType)>, name: &str) -> (found: Option<
    &'a FuncSignature,
>)
    ensures
        match found {
            Some(signature) => function_named(item_trees(exports@), name@) == Some(signature@),
            None => function_named(item_trees(exports@), name@) is None,
        },
{
    let wanted = name.to_owned();
    let ghost trees = item_trees(exports@);
    let mut i: usize = 0;
    assert(trees.take(0) =~= Seq::empty());
    while i < exports.len()
        invariant
            i <= exports@.len(),
            wanted@ == name@,
            trees == item_trees(exports@),
            function_named(trees.take(i as int), name@) is None,
        decreases exports.len() - i,
    {
        assert(trees.take(i + 1).drop_last() =~= trees.take(i as int));
        if exports[i].0 == wanted {
            if let ItemType::Func(signature) = &exports[i].1 {
                proof {
                    lemma_function_extends(trees, i + 1, name@);
                }
                return Some(signature);
            }
        }
        i = i + 1;
    }
    assert(trees.take(trees.len() as int) =~= trees);
    None
}

/// A function that is found in a prefix is what is found in the whole.
proof fn lemma_function_extends(exports: Seq<(Seq<char>, ItemTree)>, n: int, name: Seq<char>)
    requires
        0 <= n <= exports.len(),
        function_named(exports.take(n), name) is Some,
    ensures
        function_named(exports, name) == function_named(exports.take(n), name),
    decreases exports.len(),
{
    if n < exports.len() {
        assert(exports.drop_last().take(n) =~= exports.take(n));
        lemma_function_extends(exports.drop_last(), n, name);
    } else {
        assert(exports.take(n) =~= exports);
    }
}

} // verus!
