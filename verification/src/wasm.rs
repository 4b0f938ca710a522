//! The items of wasmtime that the library calls, with what it relies on.

use vstd::prelude::*;
use wasmtime::component::types::{
    ComponentFunc, ComponentInstance, ComponentItem, List, OptionType, Record, ResultType, Tuple,
    Type, Variant,
};
use wasmtime::component::{
    Component, ComponentExportIndex, Resource, ResourceAny, ResourceDynamic, ResourceTable,
    ResourceType, Val,
};
use wasmtime::StoreContextMut;

verus! {

// ---------------------------------------------------------------------------
// Values
// ---------------------------------------------------------------------------

/// A component-model value, opaque here: [`val_shape`] tells what it is.
#[verifier::external_type_specification]
#[verifier::external_body]
pub struct ExVal(wasmtime::component::Val);

/// A [`Val`] taken apart by one level. What holds no resource is `Other`.
pub enum ValShape {
    Resource(ResourceAny),
    List(Vec<Val>),
    Record(Vec<(String, Val)>),
    Tuple(Vec<Val>),
    Variant(String, Option<Val>),
    Option(Option<Val>),
    Result(Result<Option<Val>, Option<Val>>),
    Other(Val),
}

/// The mathematical view of a [`ValShape`].
pub enum ShapeView {
    Resource(ResourceAny),
    List(Seq<Val>),
    Record(Seq<(Seq<char>, Val)>),
    Tuple(Seq<Val>),
    Variant(Seq<char>, Option<Val>),
    Option(Option<Val>),
    Result(Result<Option<Val>, Option<Val>>),
    Other(Val),
}

impl View for ValShape {
    type V = ShapeView;

    open spec fn view(&self) -> ShapeView {
        match *self {
            ValShape::Resource(handle) => ShapeView::Resource(handle),
            ValShape::List(items) => ShapeView::List(items@),
            ValShape::Record(fields) => ShapeView::Record(named(fields@)),
            ValShape::Tuple(items) => ShapeView::Tuple(items@),
            ValShape::Variant(case, payload) => ShapeView::Variant(case@, payload),
            ValShape::Option(payload) => ShapeView::Option(payload),
            ValShape::Result(payload) => ShapeView::Result(payload),
            ValShape::Other(val) => ShapeView::Other(val),
        }
    }
}

/// What a value is made of.
pub uninterp spec fn val_shape_of(val: Val) -> ShapeView;

/// The variants of `Val`: tells which one a value is. A value is finite, so what it
/// is made of is smaller than the value.
#[verifier::external_body]
pub(crate) fn val_shape(val: Val) -> (shape: ValShape)
    ensures
        shape@ == val_shape_of(val),
        shape matches ValShape::Other(same) ==> same == val,
        shape matches ValShape::List(items) ==> decreases_to!(val => items@),
        shape matches ValShape::Record(fields) ==> decreases_to!(val => fields@),
        shape matches ValShape::Tuple(items) ==> decreases_to!(val => items@),
        shape matches ValShape::Variant(_, Some(payload)) ==> decreases_to!(val => payload),
        shape matches ValShape::Option(Some(payload)) ==> decreases_to!(val => payload),
        shape matches ValShape::Result(Ok(Some(payload))) ==> decreases_to!(val => payload),
        shape matches ValShape::Result(Err(Some(payload))) ==> decreases_to!(val => payload),
{
    match val {
        Val::Resource(handle) => ValShape::Resource(handle),
        Val::List(items) => ValShape::List(items),
        Val::Record(fields) => ValShape::Record(fields),
        Val::Tuple(items) => ValShape::Tuple(items),
        Val::Variant(case, payload) => ValShape::Variant(case, payload.map(|payload| *payload)),
        Val::Option(payload) => ValShape::Option(payload.map(|payload| *payload)),
        Val::Result(Ok(payload)) => ValShape::Result(Ok(payload.map(|payload| *payload))),
        Val::Result(Err(payload)) => ValShape::Result(Err(payload.map(|payload| *payload))),
        other => ValShape::Other(other),
    }
}

/// The variants of `Val`: the value that is made of this.
#[verifier::external_body]
pub(crate) fn val_of_shape(shape: ValShape) -> (val: Val)
    requires
        !(shape is Other),
    ensures
        val_shape_of(val) == shape@,
{
    match shape {
        ValShape::Resource(handle) => Val::Resource(handle),
        ValShape::List(items) => Val::List(items),
        ValShape::Record(fields) => Val::Record(fields),
        ValShape::Tuple(items) => Val::Tuple(items),
        ValShape::Variant(case, payload) => Val::Variant(case, payload.map(Box::new)),
        ValShape::Option(payload) => Val::Option(payload.map(Box::new)),
        ValShape::Result(Ok(payload)) => Val::Result(Ok(payload.map(Box::new))),
        ValShape::Result(Err(payload)) => Val::Result(Err(payload.map(Box::new))),
        ValShape::Other(val) => val,
    }
}

/// A runtime error, opaque here: it is only carried through.
#[verifier::external_type_specification]
#[verifier::external_body]
pub struct ExError(wasmtime::Error);

// ---------------------------------------------------------------------------
// Resources
// ---------------------------------------------------------------------------

/// A handle to a resource, opaque here: the index, type and ownership inside it
/// belong to wasmtime.
#[verifier::external_type_specification]
#[verifier::external_body]
pub struct ExResourceAny(wasmtime::component::ResourceAny);

/// The type of a resource, opaque here.
#[verifier::external_type_specification]
#[verifier::external_body]
pub struct ExResourceType(wasmtime::component::ResourceType);

/// A table from numbers to values of any type.
#[verifier::external_type_specification]
#[verifier::external_body]
pub struct ExResourceTable(wasmtime::component::ResourceTable);

/// Access to a store, opaque here.
#[verifier::external_type_specification]
#[verifier::external_body]
#[verifier::reject_recursive_types(T)]
pub struct ExStoreContextMut<'a, T: 'static>(wasmtime::StoreContextMut<'a, T>);

/// The type of a handle: what `ResourceAny::ty` returns.
pub uninterp spec fn handle_type(handle: ResourceAny) -> ResourceType;

/// Whether a handle owns its resource or borrows it: what `ResourceAny::owned`
/// returns.
pub uninterp spec fn handle_owned(handle: ResourceAny) -> bool;

/// Whether `ResourceDynamic::try_into_resource_any` can return `handle` for a
/// host-defined resource with the number `id`. Different stores can give out the
/// same handle for different numbers.
pub uninterp spec fn stands_for(handle: ResourceAny, id: u32) -> bool;

/// The host-defined resource type that a number identifies: what
/// `ResourceType::host_dynamic` returns.
pub uninterp spec fn host_type(id: u32) -> ResourceType;

/// The entries of a table that are resource handles, by their numbers.
pub uninterp spec fn table_handles(table: ResourceTable) -> Map<u32, ResourceAny>;

/// How many entries can be added to a table before it is full.
pub uninterp spec fn table_room(table: ResourceTable) -> nat;

/// The numbers of the entries of a table that have child entries.
pub uninterp spec fn table_parents(table: ResourceTable) -> Set<u32>;

/// The numbers of the entries of a table that have a parent which does not count
/// them among its children, as `ResourceTable::add_child` leaves an entry when the
/// parent is not there.
pub uninterp spec fn table_orphans(table: ResourceTable) -> Set<u32>;

/// `ResourceType::host_dynamic`: the host-defined resource type that `id`
/// identifies. Different numbers identify different types.
#[verifier::external_body]
pub(crate) fn host_dynamic(id: u32) -> (ty: ResourceType)
    ensures
        ty == host_type(id),
        forall|other: u32| #[trigger] host_type(other) == ty ==> other == id,
{
    ResourceType::host_dynamic(id)
}

/// `ResourceAny::owned`: whether the handle owns its resource.
#[verifier::external_body]
pub(crate) fn is_owned(handle: &ResourceAny) -> (owned: bool)
    ensures
        owned == handle_owned(*handle),
{
    handle.owned()
}

/// `ResourceType::eq`: whether two resource types are the same.
#[verifier::external_body]
pub(crate) fn same_type(a: &ResourceType, b: &ResourceType) -> (same: bool)
    ensures
        same == (*a == *b),
{
    a == b
}

/// `ResourceTable::get`, for an entry that is a resource handle: the handle with
/// this number, if there is one.
#[verifier::external_body]
pub(crate) fn table_get(table: &ResourceTable, id: u32) -> (found: Option<ResourceAny>)
    ensures
        match found {
            Some(handle) => table_handles(*table).contains_pair(id, handle),
            None => !table_handles(*table).dom().contains(id),
        },
{
    table.get(&Resource::<ResourceAny>::new_borrow(id)).ok().copied()
}

/// `ResourceTable::push`, for a resource handle: stores it under a number that no
/// entry has, unless the table is full, and then changes nothing.
#[verifier::external_body]
pub(crate) fn table_push(table: &mut ResourceTable, handle: ResourceAny) -> (id: Option<u32>)
    ensures
        id is Some <==> table_room(*old(table)) > 0,
        table_parents(*final(table)) == table_parents(*old(table)),
        table_orphans(*final(table)) == table_orphans(*old(table)),
        match id {
            Some(id) => {
                &&& !table_handles(*old(table)).dom().contains(id)
                &&& !table_parents(*old(table)).contains(id)
                &&& !table_orphans(*old(table)).contains(id)
                &&& table_handles(*final(table)) == table_handles(*old(table)).insert(id, handle)
                &&& table_room(*final(table)) == table_room(*old(table)) - 1
            },
            None => {
                &&& table_handles(*final(table)) == table_handles(*old(table))
                &&& table_room(*final(table)) == table_room(*old(table))
            },
        },
{
    table.push(handle).ok().map(|resource| resource.rep())
}

/// `ResourceTable::delete`, for an entry that is a resource handle: takes the
/// handle with this number out of the table, if there is one and no other entry
/// is its child. Handles with other numbers stay. It panics on an entry whose
/// parent does not know it.
#[verifier::external_body]
pub(crate) fn table_delete(table: &mut ResourceTable, id: u32) -> (taken: Option<ResourceAny>)
    requires
        !table_orphans(*old(table)).contains(id),
    ensures
        table_orphans(*final(table)) == table_orphans(*old(table)),
        match taken {
            Some(handle) => {
                &&& table_handles(*old(table)).contains_pair(id, handle)
                &&& !table_parents(*old(table)).contains(id)
                &&& table_handles(*final(table)) == table_handles(*old(table)).remove(id)
                &&& table_room(*final(table)) == table_room(*old(table)) + 1
            },
            None => {
                &&& !table_handles(*old(table)).dom().contains(id) || table_parents(
                    *old(table),
                ).contains(id)
                &&& table_handles(*final(table)) == table_handles(*old(table))
            },
        },
{
    table.delete(Resource::<ResourceAny>::new_own(id)).ok()
}

/// `ResourceDynamic::try_from_resource_any` and the number of what it returns:
/// the number that an owned handle to a host-defined resource stands for. A handle
/// of another type, or one that the store does not know, has none. On a borrowed
/// handle it can panic, where the call that lent the handle is over.
///
/// Which of the numbers that the handle can stand for it is, and whether the store
/// still knows the handle, depends on the store, of which nothing is said here.
#[verifier::external_body]
pub(crate) fn proxy_id<T: 'static>(
    handle: ResourceAny,
    store: &mut StoreContextMut<'_, T>,
) -> (id: Option<u32>)
    requires
        handle_owned(handle),
    ensures
        id matches Some(id) ==> stands_for(handle, id),
        id is Some ==> exists|ty_id: u32| handle_type(handle) == #[trigger] host_type(ty_id),
{
    ResourceDynamic::try_from_resource_any(handle, store).ok().map(|dynamic| dynamic.rep())
}

/// `ResourceDynamic::try_into_resource_any` on `ResourceDynamic::new_own`: a new
/// owned handle, in this store, to the host-defined resource of type `ty_id` with
/// the number `id`.
///
/// It fails when the store has no room for another handle, of which nothing is
/// said here.
#[verifier::external_body]
pub(crate) fn proxy_handle<T: 'static>(
    id: u32,
    ty_id: u32,
    store: &mut StoreContextMut<'_, T>,
) -> (r: Result<ResourceAny, wasmtime::Error>)
    ensures
        r matches Ok(handle) ==> stands_for(handle, id) && handle_type(handle) == host_type(ty_id)
            && handle_owned(handle),
{
    ResourceDynamic::new_own(id, ty_id).try_into_resource_any(store)
}

// ---------------------------------------------------------------------------
// Types
// ---------------------------------------------------------------------------

/// A component-model type, opaque here: [`type_shape`] tells what it is.
#[verifier::external_type_specification]
#[verifier::external_body]
pub struct ExType(wasmtime::component::types::Type);

/// A record type, opaque here.
#[verifier::external_type_specification]
#[verifier::external_body]
pub struct ExRecord(wasmtime::component::types::Record);

/// A list type, opaque here.
#[verifier::external_type_specification]
#[verifier::external_body]
pub struct ExList(wasmtime::component::types::List);

/// A tuple type, opaque here.
#[verifier::external_type_specification]
#[verifier::external_body]
pub struct ExTuple(wasmtime::component::types::Tuple);

/// An option type, opaque here.
#[verifier::external_type_specification]
#[verifier::external_body]
pub struct ExOptionType(wasmtime::component::types::OptionType);

/// A result type, opaque here.
#[verifier::external_type_specification]
#[verifier::external_body]
pub struct ExResultType(wasmtime::component::types::ResultType);

/// A variant type, opaque here.
#[verifier::external_type_specification]
#[verifier::external_body]
pub struct ExVariant(wasmtime::component::types::Variant);

/// A [`Type`] taken apart by one level. What holds no resource is `Other`.
pub enum TypeShape {
    Own(ResourceType),
    Borrow(ResourceType),
    Record(Record),
    List(List),
    Tuple(Tuple),
    Option(OptionType),
    Result(ResultType),
    Variant(Variant),
    Other,
}

/// Which constructor a type has.
pub uninterp spec fn shape_of(ty: Type) -> TypeShape;

/// The types of the fields of a record type: what `Record::fields` yields.
pub uninterp spec fn field_types(ty: Record) -> Seq<Type>;

/// The element type of a list type: what `List::ty` returns.
pub uninterp spec fn element_type(ty: List) -> Type;

/// The types of the elements of a tuple type: what `Tuple::types` yields.
pub uninterp spec fn tuple_types(ty: Tuple) -> Seq<Type>;

/// The payload type of an option type: what `OptionType::ty` returns.
pub uninterp spec fn some_type(ty: OptionType) -> Type;

/// The success payload of a result type: what `ResultType::ok` returns.
pub uninterp spec fn ok_type(ty: ResultType) -> Option<Type>;

/// The failure payload of a result type: what `ResultType::err` returns.
pub uninterp spec fn err_type(ty: ResultType) -> Option<Type>;

/// The cases of a variant type: what `Variant::cases` yields.
pub uninterp spec fn variant_cases(ty: Variant) -> Seq<(Seq<char>, Option<Type>)>;

/// Named entries, with their names as character sequences.
pub open spec fn named<T>(entries: Seq<(String, T)>) -> Seq<(Seq<char>, T)> {
    entries.map_values(|entry: (String, T)| (entry.0@, entry.1))
}

/// The variants of `Type`: tells which one a type is. A component's types are
/// finite, so what a type is made of is smaller than the type.
#[verifier::external_body]
pub(crate) fn type_shape(ty: Type) -> (shape: TypeShape)
    ensures
        shape == shape_of(ty),
        shape matches TypeShape::Record(inner) ==> decreases_to!(ty => inner),
        shape matches TypeShape::List(inner) ==> decreases_to!(ty => inner),
        shape matches TypeShape::Tuple(inner) ==> decreases_to!(ty => inner),
        shape matches TypeShape::Option(inner) ==> decreases_to!(ty => inner),
        shape matches TypeShape::Result(inner) ==> decreases_to!(ty => inner),
        shape matches TypeShape::Variant(inner) ==> decreases_to!(ty => inner),
{
    match ty {
        Type::Own(resource) => TypeShape::Own(resource),
        Type::Borrow(resource) => TypeShape::Borrow(resource),
        Type::Record(inner) => TypeShape::Record(inner),
        Type::List(inner) => TypeShape::List(inner),
        Type::Tuple(inner) => TypeShape::Tuple(inner),
        Type::Option(inner) => TypeShape::Option(inner),
        Type::Result(inner) => TypeShape::Result(inner),
        Type::Variant(inner) => TypeShape::Variant(inner),
        _ => TypeShape::Other,
    }
}

/// `Record::fields`: the types of the fields, in declaration order.
#[verifier::external_body]
pub(crate) fn record_fields(ty: &Record) -> (types: Vec<Type>)
    ensures
        types@ == field_types(*ty),
        decreases_to!(*ty => types@),
{
    ty.fields().map(|field| field.ty).collect()
}

/// `List::ty`: the type of the elements.
#[verifier::external_body]
pub(crate) fn list_element(ty: &List) -> (element: Type)
    ensures
        element == element_type(*ty),
        decreases_to!(*ty => element),
{
    ty.ty()
}

/// `Tuple::types`: the types of the elements, in order.
#[verifier::external_body]
pub(crate) fn tuple_elements(ty: &Tuple) -> (types: Vec<Type>)
    ensures
        types@ == tuple_types(*ty),
        decreases_to!(*ty => types@),
{
    ty.types().collect()
}

/// `OptionType::ty`: the type of the payload.
#[verifier::external_body]
pub(crate) fn option_payload(ty: &OptionType) -> (payload: Type)
    ensures
        payload == some_type(*ty),
        decreases_to!(*ty => payload),
{
    ty.ty()
}

/// `ResultType::ok`: the type of the payload of success, if it has one.
#[verifier::external_body]
pub(crate) fn result_ok(ty: &ResultType) -> (payload: Option<Type>)
    ensures
        payload == ok_type(*ty),
        payload matches Some(inner) ==> decreases_to!(*ty => inner),
{
    ty.ok()
}

/// `ResultType::err`: the type of the payload of failure, if it has one.
#[verifier::external_body]
pub(crate) fn result_err(ty: &ResultType) -> (payload: Option<Type>)
    ensures
        payload == err_type(*ty),
        payload matches Some(inner) ==> decreases_to!(*ty => inner),
{
    ty.err()
}

/// `Variant::cases`: the names and payloads of the cases, in declaration order.
#[verifier::external_body]
pub(crate) fn variant_case_list(ty: &Variant) -> (cases: Vec<(String, Option<Type>)>)
    ensures
        named(cases@) == variant_cases(*ty),
        decreases_to!(*ty => cases@),
{
    ty.cases().map(|case| (case.name.to_string(), case.ty)).collect()
}

// ---------------------------------------------------------------------------
// Components
// ---------------------------------------------------------------------------

/// A compiled component, opaque here.
#[verifier::external_type_specification]
#[verifier::external_body]
pub struct ExComponent(wasmtime::component::Component);

/// The place of an export in a component, opaque here.
#[verifier::external_type_specification]
#[verifier::external_body]
pub struct ExComponentExportIndex(wasmtime::component::ComponentExportIndex);

/// The type of an import or export, opaque here: [`item_shape`] tells what it is.
#[verifier::external_type_specification]
#[verifier::external_body]
pub struct ExComponentItem(wasmtime::component::types::ComponentItem);

/// A function type, opaque here.
#[verifier::external_type_specification]
#[verifier::external_body]
pub struct ExComponentFunc(wasmtime::component::types::ComponentFunc);

/// An instance type, opaque here.
#[verifier::external_type_specification]
#[verifier::external_body]
pub struct ExComponentInstance(wasmtime::component::types::ComponentInstance);

/// A component type, opaque here.
#[verifier::external_type_specification]
#[verifier::external_body]
pub struct ExComponentType(wasmtime::component::types::Component);

/// A [`ComponentItem`] taken apart by one level.
pub enum ItemShape {
    Func(ComponentFunc),
    Instance(ComponentInstance),
    Component(wasmtime::component::types::Component),
    Resource(ResourceType),
    Type,
    CoreFunc,
    Module,
}

/// Which kind of item an item is.
pub uninterp spec fn item_shape_of(item: ComponentItem) -> ItemShape;

/// Whether a function is declared `async`: what `ComponentFunc::async_` returns.
pub uninterp spec fn is_async(ty: ComponentFunc) -> bool;

/// The types of the parameters of a function: what `ComponentFunc::params`
/// yields, without the names.
pub uninterp spec fn param_types(ty: ComponentFunc) -> Seq<Type>;

/// The types of the results of a function: what `ComponentFunc::results` yields.
pub uninterp spec fn result_types(ty: ComponentFunc) -> Seq<Type>;

/// The exports of an instance of a component: what `ComponentInstance::exports`
/// yields for the component's engine.
pub uninterp spec fn instance_exports_of(
    ty: ComponentInstance,
    component: Component,
) -> Seq<(Seq<char>, ComponentItem)>;

/// The imports of a component type inside a component: what
/// `types::Component::imports` yields for the component's engine.
pub uninterp spec fn inner_imports_of(
    ty: wasmtime::component::types::Component,
    component: Component,
) -> Seq<(Seq<char>, ComponentItem)>;

/// The exports of a component: what `types::Component::exports` yields for the
/// component's own type and engine.
pub uninterp spec fn exports_of(component: Component) -> Seq<(Seq<char>, ComponentItem)>;

/// The names of the imports of a component: what `types::Component::imports`
/// yields for the component's own type and engine, without the types.
pub uninterp spec fn imports_of(component: Component) -> Seq<Seq<char>>;

/// The place of an export: what `Component::get_export_index` returns.
pub uninterp spec fn export_index_of(
    component: Component,
    parent: Option<ComponentExportIndex>,
    name: Seq<char>,
) -> Option<ComponentExportIndex>;

/// The names of named entries.
pub open spec fn entry_names<T>(entries: Seq<(Seq<char>, T)>) -> Seq<Seq<char>> {
    entries.map_values(|entry: (Seq<char>, T)| entry.0)
}

/// The variants of `ComponentItem`: tells which one an item is. What an item is
/// made of is smaller than the item.
#[verifier::external_body]
pub(crate) fn item_shape(item: ComponentItem) -> (shape: ItemShape)
    ensures
        shape == item_shape_of(item),
        shape matches ItemShape::Instance(inner) ==> decreases_to!(item => inner),
        shape matches ItemShape::Component(inner) ==> decreases_to!(item => inner),
{
    match item {
        ComponentItem::ComponentFunc(inner) => ItemShape::Func(inner),
        ComponentItem::ComponentInstance(inner) => ItemShape::Instance(inner),
        ComponentItem::Component(inner) => ItemShape::Component(inner),
        ComponentItem::Resource(inner) => ItemShape::Resource(inner),
        ComponentItem::Type(_) => ItemShape::Type,
        ComponentItem::CoreFunc(_) => ItemShape::CoreFunc,
        ComponentItem::Module(_) => ItemShape::Module,
    }
}

/// `ComponentFunc::async_`: whether the function is declared `async`.
#[verifier::external_body]
pub(crate) fn func_async(ty: &ComponentFunc) -> (r: bool)
    ensures
        r == is_async(*ty),
{
    ty.async_()
}

/// `ComponentFunc::params`: the types of the parameters, in order.
#[verifier::external_body]
pub(crate) fn func_params(ty: &ComponentFunc) -> (types: Vec<Type>)
    ensures
        types@ == param_types(*ty),
{
    ty.params().map(|param| param.1).collect()
}

/// `ComponentFunc::results`: the types of the results, in order.
#[verifier::external_body]
pub(crate) fn func_results(ty: &ComponentFunc) -> (types: Vec<Type>)
    ensures
        types@ == result_types(*ty),
{
    ty.results().collect()
}

/// `ComponentInstance::exports`: the names and types of the exports of an
/// instance, in order.
#[verifier::external_body]
pub(crate) fn instance_exports(ty: &ComponentInstance, component: &Component) -> (exports: Vec<
    (String, ComponentItem),
>)
    ensures
        named(exports@) == instance_exports_of(*ty, *component),
        decreases_to!(*ty => exports@),
{
    ty.exports(component.engine()).map(|(name, item)| (name.to_string(), item)).collect()
}

/// `types::Component::imports`, for a component type inside a component: the
/// names and types of its imports, in order.
#[verifier::external_body]
pub(crate) fn inner_imports(
    ty: &wasmtime::component::types::Component,
    component: &Component,
) -> (imports: Vec<(String, ComponentItem)>)
    ensures
        named(imports@) == inner_imports_of(*ty, *component),
        decreases_to!(*ty => imports@),
{
    ty.imports(component.engine()).map(|(name, item)| (name.to_string(), item)).collect()
}

/// `types::Component::exports`, for a component's own type: the names and types
/// of its exports, in order. No name occurs twice.
#[verifier::external_body]
pub(crate) fn component_exports(component: &Component) -> (exports: Vec<(String, ComponentItem)>)
    ensures
        named(exports@) == exports_of(*component),
        entry_names(named(exports@)).no_duplicates(),
{
    let ty = component.component_type();
    ty.exports(component.engine()).map(|(name, item)| (name.to_string(), item)).collect()
}

/// `types::Component::imports`, for a component's own type: the names of its
/// imports, in order. No name occurs twice.
#[verifier::external_body]
pub(crate) fn component_imports(component: &Component) -> (imports: Vec<String>)
    ensures
        imports@.map_values(|name: String| name@) == imports_of(*component),
        imports@.map_values(|name: String| name@).no_duplicates(),
{
    let ty = component.component_type();
    ty.imports(component.engine()).map(|(name, _)| name.to_string()).collect()
}

/// `Component::get_export_index`: the place of the export `name`, in the
/// instance export `parent` or at the top.
#[verifier::external_body]
pub(crate) fn export_index(
    component: &Component,
    parent: Option<ComponentExportIndex>,
    name: &str,
) -> (index: Option<ComponentExportIndex>)
    ensures
        index == export_index_of(*component, parent, name@),
{
    component.get_export_index(parent.as_ref(), name)
}

} // verus!
