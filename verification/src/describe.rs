//! Reading the types of a component.

use vstd::prelude::*;
use wasmtime::component::types::{ComponentFunc, ComponentItem, Type};
use wasmtime::component::{Component, ResourceType};

use crate::mapper::{FuncSignature, SignatureTree};
use crate::value_type::{arm_tree, case_trees, type_trees, TypeTree, ValueType};
use crate::wasm::{
    element_type, err_type, field_types, func_async, func_params, func_results, inner_imports,
    inner_imports_of, instance_exports, instance_exports_of, is_async, item_shape, item_shape_of,
    list_element, named, ok_type, option_payload, param_types, record_fields, result_err,
    result_ok, result_types, shape_of, some_type, tuple_elements, tuple_types, type_shape,
    variant_case_list, variant_cases, ItemShape, TypeShape,
};

verus! {

// ---------------------------------------------------------------------------
// Value types
// ---------------------------------------------------------------------------

/// `tree` is the component-model type `ty`.
pub open spec fn describes(ty: Type, tree: TypeTree) -> bool
    decreases tree, 0nat,
{
    match tree {
        TypeTree::Own(rt) => shape_of(ty) == TypeShape::Own(rt),
        TypeTree::Borrow(rt) => shape_of(ty) == TypeShape::Borrow(rt),
        TypeTree::Record(fields) => shape_of(ty) matches TypeShape::Record(inner) && describe_all(
            field_types(inner),
            fields,
        ),
        TypeTree::List(element) => shape_of(ty) matches TypeShape::List(inner) && describes(
            element_type(inner),
            *element,
        ),
        TypeTree::Tuple(types) => shape_of(ty) matches TypeShape::Tuple(inner) && describe_all(
            tuple_types(inner),
            types,
        ),
        TypeTree::Option(payload) => shape_of(ty) matches TypeShape::Option(inner) && describes(
            some_type(inner),
            *payload,
        ),
        TypeTree::Result(ok, err) => shape_of(ty) matches TypeShape::Result(inner)
            && describes_payload(ok_type(inner), ok) && describes_payload(err_type(inner), err),
        TypeTree::Variant(cases) => shape_of(ty) matches TypeShape::Variant(inner)
            && describe_cases(variant_cases(inner), cases),
        TypeTree::Other => shape_of(ty) == TypeShape::Other,
    }
}

/// `trees` are the component-model types `types`, one for one.
pub open spec fn describe_all(types: Seq<Type>, trees: Seq<TypeTree>) -> bool
    decreases trees, 1nat,
{
    &&& types.len() == trees.len()
    &&& forall|i: int| 0 <= i < trees.len() ==> describes(types[i], #[trigger] trees[i])
}

/// `trees` are the cases of a variant, one for one.
pub open spec fn describe_cases(
    cases: Seq<(Seq<char>, Option<Type>)>,
    trees: Seq<(Seq<char>, Option<TypeTree>)>,
) -> bool
    decreases trees, 1nat,
{
    &&& cases.len() == trees.len()
    &&& forall|i: int|
        0 <= i < trees.len() ==> {
            &&& cases[i].0 == (#[trigger] trees[i]).0
            &&& match (cases[i].1, trees[i].1) {
                (Some(ty), Some(tree)) => describes(ty, tree),
                (None, None) => true,
                _ => false,
            }
        }
}

/// `tree` is the payload type `payload`, if there is one.
pub open spec fn describes_payload(payload: Option<Type>, tree: Option<Box<TypeTree>>) -> bool
    decreases tree, 1nat,
{
    match (payload, tree) {
        (Some(ty), Some(tree)) => describes(ty, *tree),
        (None, None) => true,
        _ => false,
    }
}

/// Reads a component-model type.
pub fn read_type(ty: Type) -> (r: ValueType)
    ensures
        describes(ty, r@),
    decreases ty,
{
    match type_shape(ty) {
        TypeShape::Own(rt) => ValueType::Own(rt),
        TypeShape::Borrow(rt) => ValueType::Borrow(rt),
        TypeShape::Record(inner) => ValueType::Record(read_types(record_fields(&inner))),
        TypeShape::List(inner) => ValueType::List(Box::new(read_type(list_element(&inner)))),
        TypeShape::Tuple(inner) => ValueType::Tuple(read_types(tuple_elements(&inner))),
        TypeShape::Option(inner) => ValueType::Option(Box::new(read_type(option_payload(&inner)))),
        TypeShape::Result(inner) => {
            let ok = match result_ok(&inner) {
                Some(payload) => Some(Box::new(read_type(payload))),
                None => None,
            };
            let err = match result_err(&inner) {
                Some(payload) => Some(Box::new(read_type(payload))),
                None => None,
            };
            assert(describes_payload(ok_type(inner), arm_tree(ok)));
            assert(describes_payload(err_type(inner), arm_tree(err)));
            ValueType::Result(ok, err)
        },
        TypeShape::Variant(inner) => ValueType::Variant(read_cases(variant_case_list(&inner))),
        TypeShape::Other => ValueType::Other,
    }
}

/// Reads a sequence of component-model types.
fn read_types(types: Vec<Type>) -> (r: Vec<ValueType>)
    ensures
        describe_all(types@, type_trees(r@)),
    decreases types@,
{
    let ghost all = types@;
    let mut read: Vec<ValueType> = Vec::new();
    for ty in iter: types
        invariant
            iter.seq() == all,
            all == types@,
            read@.len() == iter.index(),
            forall|j: int| 0 <= j < iter.index() ==> describes(all[j], (#[trigger] read@[j])@),
    {
        read.push(read_type(ty));
    }
    read
}

/// Reads the cases of a variant.
fn read_cases(cases: Vec<(String, Option<Type>)>) -> (r: Vec<(String, Option<ValueType>)>)
    ensures
        describe_cases(named(cases@), case_trees(r@)),
    decreases cases@,
{
    let ghost all = cases@;
    let mut read: Vec<(String, Option<ValueType>)> = Vec::new();
    for case in iter: cases
        invariant
            iter.seq() == all,
            all == cases@,
            read@.len() == iter.index(),
            forall|j: int|
                0 <= j < iter.index() ==> {
                    &&& all[j].0@ == (#[trigger] read@[j]).0@
                    &&& match (all[j].1, read@[j].1) {
                        (Some(ty), Some(r)) => describes(ty, r@),
                        (None, None) => true,
                        _ => false,
                    }
                },
    {
        let payload = match case.1 {
            Some(ty) => Some(read_type(ty)),
            None => None,
        };
        read.push((case.0, payload));
    }
    read
}

/// `tree` is the function type `ty`.
pub open spec fn describes_func(ty: ComponentFunc, tree: SignatureTree) -> bool {
    &&& tree.is_async == is_async(ty)
    &&& describe_all(param_types(ty), tree.params)
    &&& describe_all(result_types(ty), tree.results)
}

/// Reads a function type.
pub fn read_signature(ty: &ComponentFunc) -> (r: FuncSignature)
    ensures
        describes_func(*ty, r@),
{
    FuncSignature {
        is_async: func_async(ty),
        params: read_types(func_params(ty)),
        results: read_types(func_results(ty)),
    }
}

// ---------------------------------------------------------------------------
// Items
// ---------------------------------------------------------------------------

/// The type of an import or export of a component.
pub enum ItemType {
    /// A function.
    Func(FuncSignature),
    /// An instance with these exports, in order.
    Instance(Vec<(String, ItemType)>),
    /// A component with these imports, in order.
    Component(Vec<(String, ItemType)>),
    /// A resource type.
    Resource(ResourceType),
    /// Any other type.
    Type,
    /// A core function.
    CoreFunc,
    /// A core module.
    Module,
}

/// The mathematical view of an [`ItemType`].
pub enum ItemTree {
    Func(SignatureTree),
    Instance(Seq<(Seq<char>, ItemTree)>),
    Component(Seq<(Seq<char>, ItemTree)>),
    Resource(ResourceType),
    Type,
    CoreFunc,
    Module,
}

/// The views of named items.
pub open spec fn item_trees(items: Seq<(String, ItemType)>) -> Seq<(Seq<char>, ItemTree)>
    decreases items,
{
    Seq::new(
        items.len(),
        |i: int|
            if 0 <= i < items.len() {
                (items[i].0@, items[i].1.tree())
            } else {
                arbitrary()
            },
    )
}

impl ItemType {
    /// The tree that this item type stands for.
    pub open spec fn tree(self) -> ItemTree
        decreases self,
    {
        match self {
            ItemType::Func(signature) => ItemTree::Func(signature@),
            ItemType::Instance(exports) => ItemTree::Instance(item_trees(exports@)),
            ItemType::Component(imports) => ItemTree::Component(item_trees(imports@)),
            ItemType::Resource(ty) => ItemTree::Resource(ty),
            ItemType::Type => ItemTree::Type,
            ItemType::CoreFunc => ItemTree::CoreFunc,
            ItemType::Module => ItemTree::Module,
        }
    }
}

impl View for ItemType {
    type V = ItemTree;

    open spec fn view(&self) -> ItemTree {
        self.tree()
    }
}

/// `tree` is the type `item` of an import or export of `component`.
pub open spec fn describes_item(component: Component, item: ComponentItem, tree: ItemTree) -> bool
    decreases tree, 0nat,
{
    match tree {
        ItemTree::Func(signature) => item_shape_of(item) matches ItemShape::Func(inner)
            && describes_func(inner, signature),
        ItemTree::Instance(exports) => item_shape_of(item) matches ItemShape::Instance(inner)
            && describe_items(component, instance_exports_of(inner, component), exports),
        ItemTree::Component(imports) => item_shape_of(item) matches ItemShape::Component(inner)
            && describe_items(component, inner_imports_of(inner, component), imports),
        ItemTree::Resource(ty) => item_shape_of(item) == ItemShape::Resource(ty),
        ItemTree::Type => item_shape_of(item) == ItemShape::Type,
        ItemTree::CoreFunc => item_shape_of(item) == ItemShape::CoreFunc,
        ItemTree::Module => item_shape_of(item) == ItemShape::Module,
    }
}

/// `trees` are the named items `items` of `component`, one for one.
pub open spec fn describe_items(
    component: Component,
    items: Seq<(Seq<char>, ComponentItem)>,
    trees: Seq<(Seq<char>, ItemTree)>,
) -> bool
    decreases trees, 1nat,
{
    &&& items.len() == trees.len()
    &&& forall|i: int|
        0 <= i < trees.len() ==> items[i].0 == (#[trigger] trees[i]).0 && describes_item(
            component,
            items[i].1,
            trees[i].1,
        )
}

/// Reads the type of an import or export of `component`.
pub fn read_item(component: &Component, item: ComponentItem) -> (r: ItemType)
    ensures
        describes_item(*component, item, r@),
    decreases item,
{
    match item_shape(item) {
        ItemShape::Func(inner) => ItemType::Func(read_signature(&inner)),
        ItemShape::Instance(inner) => ItemType::Instance(
            read_items(component, instance_exports(&inner, component)),
        ),
        ItemShape::Component(inner) => ItemType::Component(
            read_items(component, inner_imports(&inner, component)),
        ),
        ItemShape::Resource(ty) => ItemType::Resource(ty),
        ItemShape::Type => ItemType::Type,
        ItemShape::CoreFunc => ItemType::CoreFunc,
        ItemShape::Module => ItemType::Module,
    }
}

/// Reads the types of named imports or exports of `component`.
pub(crate) fn read_items(component: &Component, items: Vec<(String, ComponentItem)>) -> (r: Vec<
    (String, ItemType),
>)
    ensures
        describe_items(*component, named(items@), item_trees(r@)),
    decreases items@,
{
    let ghost all = items@;
    let mut read: Vec<(String, ItemType)> = Vec::new();
    for item in iter: items
        invariant
            iter.seq() == all,
            all == items@,
            read@.len() == iter.index(),
            forall|j: int|
                0 <= j < iter.index() ==> all[j].0@ == (#[trigger] read@[j]).0@ && describes_item(
                    *component,
                    all[j].1,
                    read@[j].1@,
                ),
    {
        let ty = read_item(component, item.1);
        read.push((item.0, ty));
    }
    read
}

// ---------------------------------------------------------------------------
// Laws
// ---------------------------------------------------------------------------

/// A component-model type is read in one way only.
pub proof fn types_are_read_in_one_way(ty: Type, a: TypeTree, b: TypeTree)
    requires
        describes(ty, a),
        describes(ty, b),
    ensures
        a == b,
    decreases a, 0nat,
{
    match (a, b) {
        (TypeTree::Record(xs), TypeTree::Record(ys)) => {
            lemma_all_read_in_one_way(field_types(shape_of(ty)->Record_0), xs, ys);
        },
        (TypeTree::List(x), TypeTree::List(y)) => {
            types_are_read_in_one_way(element_type(shape_of(ty)->List_0), *x, *y);
        },
        (TypeTree::Tuple(xs), TypeTree::Tuple(ys)) => {
            lemma_all_read_in_one_way(tuple_types(shape_of(ty)->Tuple_0), xs, ys);
        },
        (TypeTree::Option(x), TypeTree::Option(y)) => {
            types_are_read_in_one_way(some_type(shape_of(ty)->Option_0), *x, *y);
        },
        (TypeTree::Result(ok_a, err_a), TypeTree::Result(ok_b, err_b)) => {
            let inner = shape_of(ty)->Result_0;
            assert(describes_payload(ok_type(inner), ok_a));
            assert(describes_payload(ok_type(inner), ok_b));
            assert(describes_payload(err_type(inner), err_a));
            assert(describes_payload(err_type(inner), err_b));
            if let (Some(x), Some(y)) = (ok_a, ok_b) {
                types_are_read_in_one_way(ok_type(inner)->0, *x, *y);
            }
            if let (Some(x), Some(y)) = (err_a, err_b) {
                types_are_read_in_one_way(err_type(inner)->0, *x, *y);
            }
        },
        (TypeTree::Variant(xs), TypeTree::Variant(ys)) => {
            lemma_cases_read_in_one_way(variant_cases(shape_of(ty)->Variant_0), xs, ys);
        },
        _ => {},
    }
}

proof fn lemma_all_read_in_one_way(types: Seq<Type>, a: Seq<TypeTree>, b: Seq<TypeTree>)
    requires
        describe_all(types, a),
        describe_all(types, b),
    ensures
        a == b,
    decreases a, 1nat,
{
    assert forall|i: int| 0 <= i < a.len() implies a[i] == b[i] by {
        assert(describes(types[i], a[i]) && describes(types[i], b[i]));
        types_are_read_in_one_way(types[i], a[i], b[i]);
    }
    assert(a =~= b);
}

proof fn lemma_cases_read_in_one_way(
    cases: Seq<(Seq<char>, Option<Type>)>,
    a: Seq<(Seq<char>, Option<TypeTree>)>,
    b: Seq<(Seq<char>, Option<TypeTree>)>,
)
    requires
        describe_cases(cases, a),
        describe_cases(cases, b),
    ensures
        a == b,
    decreases a, 1nat,
{
    assert forall|i: int| 0 <= i < a.len() implies a[i] == b[i] by {
        assert(cases[i].0 == a[i].0 && cases[i].0 == b[i].0);
        if let (Some(x), Some(y)) = (a[i].1, b[i].1) {
            types_are_read_in_one_way(cases[i].1->0, x, y);
        }
    }
    assert(a =~= b);
}

/// The type of an import or export is read in one way only.
pub proof fn items_are_read_in_one_way(
    component: Component,
    item: ComponentItem,
    a: ItemTree,
    b: ItemTree,
)
    requires
        describes_item(component, item, a),
        describes_item(component, item, b),
    ensures
        a == b,
    decreases a, 0nat,
{
    match (a, b) {
        (ItemTree::Func(x), ItemTree::Func(y)) => {
            let ty = item_shape_of(item)->Func_0;
            lemma_all_read_in_one_way(param_types(ty), x.params, y.params);
            lemma_all_read_in_one_way(result_types(ty), x.results, y.results);
        },
        (ItemTree::Instance(xs), ItemTree::Instance(ys)) => {
            let ty = item_shape_of(item)->Instance_0;
            exports_are_read_in_one_way(component, instance_exports_of(ty, component), xs, ys);
        },
        (ItemTree::Component(xs), ItemTree::Component(ys)) => {
            let ty = item_shape_of(item)->Component_0;
            exports_are_read_in_one_way(component, inner_imports_of(ty, component), xs, ys);
        },
        _ => {},
    }
}

/// The imports or exports of a component or an instance are read in one way only.
pub proof fn exports_are_read_in_one_way(
    component: Component,
    items: Seq<(Seq<char>, ComponentItem)>,
    a: Seq<(Seq<char>, ItemTree)>,
    b: Seq<(Seq<char>, ItemTree)>,
)
    requires
        describe_items(component, items, a),
        describe_items(component, items, b),
    ensures
        a == b,
    decreases a, 1nat,
{
    assert forall|i: int| 0 <= i < a.len() implies a[i] == b[i] by {
        assert(items[i].0 == a[i].0 && items[i].0 == b[i].0);
        items_are_read_in_one_way(component, items[i].1, a[i].1, b[i].1);
    }
    assert(a =~= b);
}

/// A component-model type is read for what it is, part by part. Only a type whose values
/// hold no handle is left as it is.
pub proof fn types_are_read_for_what_they_are(ty: Type, tree: TypeTree)
    requires
        describes(ty, tree),
    ensures
        match shape_of(ty) {
            TypeShape::Own(rt) => tree == TypeTree::Own(rt),
            TypeShape::Borrow(rt) => tree == TypeTree::Borrow(rt),
            TypeShape::Record(inner) => tree matches TypeTree::Record(fields) && fields.len()
                == field_types(inner).len() && forall|i: int|
                0 <= i < fields.len() ==> describes(field_types(inner)[i], #[trigger] fields[i]),
            TypeShape::List(inner) => tree matches TypeTree::List(element) && describes(
                element_type(inner),
                *element,
            ),
            TypeShape::Tuple(inner) => tree matches TypeTree::Tuple(types) && types.len()
                == tuple_types(inner).len() && forall|i: int|
                0 <= i < types.len() ==> describes(tuple_types(inner)[i], #[trigger] types[i]),
            TypeShape::Option(inner) => tree matches TypeTree::Option(payload) && describes(
                some_type(inner),
                *payload,
            ),
            TypeShape::Result(inner) => tree matches TypeTree::Result(ok, err) && {
                &&& match (ok_type(inner), ok) {
                    (Some(ty), Some(tree)) => describes(ty, *tree),
                    (None, None) => true,
                    _ => false,
                }
                &&& match (err_type(inner), err) {
                    (Some(ty), Some(tree)) => describes(ty, *tree),
                    (None, None) => true,
                    _ => false,
                }
            },
            TypeShape::Variant(inner) => tree matches TypeTree::Variant(cases) && cases.len()
                == variant_cases(inner).len() && forall|i: int|
                0 <= i < cases.len() ==> (#[trigger] cases[i]).0 == variant_cases(inner)[i].0
                    && match (variant_cases(inner)[i].1, cases[i].1) {
                    (Some(ty), Some(tree)) => describes(ty, tree),
                    (None, None) => true,
                    _ => false,
                },
            TypeShape::Other => tree == TypeTree::Other,
        },
{
    match (tree, shape_of(ty)) {
        (TypeTree::Record(fields), TypeShape::Record(inner)) => {
            assert(describe_all(field_types(inner), fields));
        },
        (TypeTree::Tuple(types), TypeShape::Tuple(inner)) => {
            assert(describe_all(tuple_types(inner), types));
        },
        (TypeTree::Result(ok, err), TypeShape::Result(inner)) => {
            assert(describes_payload(ok_type(inner), ok));
            assert(describes_payload(err_type(inner), err));
        },
        (TypeTree::Variant(cases), TypeShape::Variant(inner)) => {
            assert(describe_cases(variant_cases(inner), cases));
        },
        _ => {},
    }
}

/// The type of an import or export is read for what it is, part by part.
pub proof fn items_are_read_for_what_they_are(
    component: Component,
    item: ComponentItem,
    tree: ItemTree,
)
    requires
        describes_item(component, item, tree),
    ensures
        match item_shape_of(item) {
            ItemShape::Func(inner) => tree matches ItemTree::Func(signature) && {
                &&& signature.is_async == is_async(inner)
                &&& signature.params.len() == param_types(inner).len()
                &&& signature.results.len() == result_types(inner).len()
                &&& forall|i: int|
                    0 <= i < signature.params.len() ==> describes(
                        param_types(inner)[i],
                        #[trigger] signature.params[i],
                    )
                &&& forall|i: int|
                    0 <= i < signature.results.len() ==> describes(
                        result_types(inner)[i],
                        #[trigger] signature.results[i],
                    )
            },
            ItemShape::Instance(inner) => tree matches ItemTree::Instance(exports) && exports.len()
                == instance_exports_of(inner, component).len() && forall|i: int|
                0 <= i < exports.len() ==> (#[trigger] exports[i]).0 == instance_exports_of(
                    inner,
                    component,
                )[i].0 && describes_item(
                    component,
                    instance_exports_of(inner, component)[i].1,
                    exports[i].1,
                ),
            ItemShape::Component(inner) => tree matches ItemTree::Component(imports)
                && imports.len() == inner_imports_of(inner, component).len() && forall|i: int|
                0 <= i < imports.len() ==> (#[trigger] imports[i]).0 == inner_imports_of(
                    inner,
                    component,
                )[i].0 && describes_item(
                    component,
                    inner_imports_of(inner, component)[i].1,
                    imports[i].1,
                ),
            ItemShape::Resource(ty) => tree == ItemTree::Resource(ty),
            ItemShape::Type => tree == ItemTree::Type,
            ItemShape::CoreFunc => tree == ItemTree::CoreFunc,
            ItemShape::Module => tree == ItemTree::Module,
        },
{
}

} // verus!
