//! Component-model types as the composition logic sees them.

use vstd::prelude::*;
use wasmtime::component::ResourceType;

verus! {

/// A component-model type.
///
/// As in [`Value`](crate::Value), only what can hold a resource handle is taken
/// apart; every other type is [`ValueType::Other`].
pub enum ValueType {
    /// An owned resource handle.
    Own(ResourceType),
    /// A borrowed resource handle.
    Borrow(ResourceType),
    /// A record with fields of these types, in declaration order.
    Record(Vec<ValueType>),
    /// A list of values of this type.
    List(Box<ValueType>),
    /// A tuple with elements of these types.
    Tuple(Vec<ValueType>),
    /// An optional value of this type.
    Option(Box<ValueType>),
    /// A result with these payloads for success and failure.
    Result(Option<Box<ValueType>>, Option<Box<ValueType>>),
    /// A variant with these cases and payloads, in declaration order.
    Variant(Vec<(String, Option<ValueType>)>),
    /// A type whose values hold no resource handle.
    Other,
}

/// The mathematical view of a [`ValueType`].
pub enum TypeTree {
    Own(ResourceType),
    Borrow(ResourceType),
    Record(Seq<TypeTree>),
    List(Box<TypeTree>),
    Tuple(Seq<TypeTree>),
    Option(Box<TypeTree>),
    Result(Option<Box<TypeTree>>, Option<Box<TypeTree>>),
    Variant(Seq<(Seq<char>, Option<TypeTree>)>),
    Other,
}

/// The views of a sequence of types.
pub open spec fn type_trees(types: Seq<ValueType>) -> Seq<TypeTree>
    decreases types,
{
    Seq::new(
        types.len(),
        |i: int|
            if 0 <= i < types.len() {
                types[i].tree()
            } else {
                arbitrary()
            },
    )
}

/// The views of the cases of a variant.
pub open spec fn case_trees(cases: Seq<(String, Option<ValueType>)>) -> Seq<
    (Seq<char>, Option<TypeTree>),
>
    decreases cases,
{
    Seq::new(
        cases.len(),
        |i: int|
            if 0 <= i < cases.len() {
                (
                    cases[i].0@,
                    match cases[i].1 {
                        Some(ty) => Some(ty.tree()),
                        None => None,
                    },
                )
            } else {
                arbitrary()
            },
    )
}

/// The view of the payload of an arm of a result.
pub open spec fn arm_tree(arm: Option<Box<ValueType>>) -> Option<Box<TypeTree>>
    decreases arm,
{
    match arm {
        Some(ty) => Some(Box::new(ty.tree())),
        None => None,
    }
}

impl ValueType {
    /// The tree that this type stands for.
    pub open spec fn tree(self) -> TypeTree
        decreases self,
    {
        match self {
            ValueType::Own(ty) => TypeTree::Own(ty),
            ValueType::Borrow(ty) => TypeTree::Borrow(ty),
            ValueType::Record(fields) => TypeTree::Record(type_trees(fields@)),
            ValueType::List(inner) => TypeTree::List(Box::new(inner.tree())),
            ValueType::Tuple(types) => TypeTree::Tuple(type_trees(types@)),
            ValueType::Option(inner) => TypeTree::Option(Box::new(inner.tree())),
            ValueType::Result(ok, err) => TypeTree::Result(arm_tree(ok), arm_tree(err)),
            ValueType::Variant(cases) => TypeTree::Variant(case_trees(cases@)),
            ValueType::Other => TypeTree::Other,
        }
    }
}

impl View for ValueType {
    type V = TypeTree;

    open spec fn view(&self) -> TypeTree {
        self.tree()
    }
}

} // verus!
