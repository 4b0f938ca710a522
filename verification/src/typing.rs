//! Which values a type has, and that they fit what is built from the type.

use vstd::prelude::*;

use crate::compile::{compile, compile_arm, compile_cases, compile_parts};
use crate::mapper::{mapper_of, row, SignatureTree};
use crate::names::position;
use crate::navigator::{case_names, fits, parts_fit};
use crate::value::{Value, ValueTree};
use crate::value_type::TypeTree;

verus! {

/// `value` is a value of type `ty`. Of a value of a type that holds no resource
/// handle nothing more is asked.
pub open spec fn has_type(ty: TypeTree, value: ValueTree) -> bool
    decreases ty,
{
    match ty {
        TypeTree::Own(_) => value is Resource,
        TypeTree::Borrow(_) => value is Resource,
        TypeTree::Record(fields) => value matches ValueTree::Record(values) && values.len()
            == fields.len() && forall|i: int|
            0 <= i < fields.len() ==> has_type(#[trigger] fields[i], values[i].1),
        TypeTree::List(inner) => value matches ValueTree::List(items) && forall|i: int|
            0 <= i < items.len() ==> has_type(*inner, #[trigger] items[i]),
        TypeTree::Tuple(types) => value matches ValueTree::Tuple(items) && items.len()
            == types.len() && forall|i: int|
            0 <= i < types.len() ==> has_type(#[trigger] types[i], items[i]),
        TypeTree::Option(inner) => value matches ValueTree::Option(payload) && (
        payload matches Some(payload) ==> has_type(*inner, *payload)),
        TypeTree::Result(ok, err) => match value {
            ValueTree::Result(Ok(payload)) => match (ok, payload) {
                (Some(inner), Some(payload)) => has_type(*inner, *payload),
                (None, None) => true,
                _ => false,
            },
            ValueTree::Result(Err(payload)) => match (err, payload) {
                (Some(inner), Some(payload)) => has_type(*inner, *payload),
                (None, None) => true,
                _ => false,
            },
            _ => false,
        },
        TypeTree::Variant(cases) => value matches ValueTree::Variant(case, payload) && (
        position(case_names(cases), case) matches Some(i) && 0 <= i < cases.len() && match (
            cases[i].1,
            payload,
        ) {
            (Some(inner), Some(payload)) => has_type(inner, *payload),
            (None, None) => true,
            _ => false,
        }),
        TypeTree::Other => true,
    }
}

/// `values` are values of the types `types`, one for one.
pub open spec fn have_types(types: Seq<TypeTree>, values: Seq<Value>) -> bool {
    &&& values.len() == types.len()
    &&& forall|i: int| 0 <= i < types.len() ==> has_type(#[trigger] types[i], values[i]@)
}

/// A value of a type has every part that the navigator of the type goes to.
pub proof fn values_of_a_type_fit_its_navigator(ty: TypeTree, value: ValueTree)
    requires
        has_type(ty, value),
    ensures
        compile(ty) matches Some(nav) ==> fits(nav, value),
    decreases ty, 0nat,
{
    match ty {
        TypeTree::Record(fields) => {
            assert forall|i: int| 0 <= i < fields.len() implies has_type(
                #[trigger] fields[i],
                value.child(i),
            ) by {}
            lemma_parts_fit(fields, value);
        },
        TypeTree::List(inner) => {
            if let ValueTree::List(items) = value {
                assert forall|i: int| 0 <= i < items.len() implies (compile(*inner) matches Some(
                    nav,
                ) ==> fits(nav, #[trigger] items[i])) by {
                    values_of_a_type_fit_its_navigator(*inner, items[i]);
                }
            }
        },
        TypeTree::Tuple(types) => {
            lemma_parts_fit(types, value);
        },
        TypeTree::Option(inner) => {
            if let ValueTree::Option(Some(payload)) = value {
                values_of_a_type_fit_its_navigator(*inner, *payload);
            }
        },
        TypeTree::Result(ok, err) => {
            match value {
                ValueTree::Result(Ok(Some(payload))) => {
                    if let Some(inner) = ok {
                        values_of_a_type_fit_its_navigator(*inner, *payload);
                        assert(compile_arm(ok) is Some <==> compile(*inner) is Some);
                    }
                },
                ValueTree::Result(Err(Some(payload))) => {
                    if let Some(inner) = err {
                        values_of_a_type_fit_its_navigator(*inner, *payload);
                        assert(compile_arm(err) is Some <==> compile(*inner) is Some);
                    }
                },
                _ => {},
            }
        },
        TypeTree::Variant(cases) => {
            if let ValueTree::Variant(case, Some(payload)) = value {
                assert(case_names(compile_cases(cases)) =~= case_names(cases));
                let i = position(case_names(cases), case)->0;
                if let Some(inner) = cases[i].1 {
                    values_of_a_type_fit_its_navigator(inner, *payload);
                }
            }
        },
        _ => {},
    }
}

/// The parts of a record or tuple fit the navigators of their types.
proof fn lemma_parts_fit(types: Seq<TypeTree>, value: ValueTree)
    requires
        forall|i: int|
            0 <= i < types.len() ==> value.has_child(i) && has_type(
                #[trigger] types[i],
                value.child(i),
            ),
    ensures
        parts_fit(compile_parts(types), value),
    decreases types, 0nat,
{
    if types.len() > 0 {
        let init = types.drop_last();
        assert forall|i: int| 0 <= i < init.len() implies value.has_child(i) && has_type(
            #[trigger] init[i],
            value.child(i),
        ) by {
            assert(init[i] == types[i]);
        }
        lemma_parts_fit(init, value);
        assert(types[types.len() - 1] == types.last());
        values_of_a_type_fit_its_navigator(types.last(), value.child(types.len() - 1));
        let before = compile_parts(init);
        let parts = compile_parts(types);
        assert forall|i: int| 0 <= i < parts.len() implies value.has_child(
            (#[trigger] parts[i]).0,
        ) && fits(parts[i].1, value.child(parts[i].0)) by {
            if i < before.len() {
                assert(parts[i] == before[i]);
            }
        }
    }
}

/// Arguments and results of the types that a function declares have every part that
/// the mapper of the function goes to, so that they can be remapped.
pub proof fn values_of_a_signature_fit_its_mapper(
    signature: SignatureTree,
    params: Seq<Value>,
    results: Seq<Value>,
)
    ensures
        have_types(signature.params, params) ==> parts_fit(
            mapper_of(signature).params,
            row(params),
        ),
        have_types(signature.results, results) ==> parts_fit(
            mapper_of(signature).results,
            row(results),
        ),
{
    if have_types(signature.params, params) {
        lemma_parts_fit(signature.params, row(params));
    }
    if have_types(signature.results, results) {
        lemma_parts_fit(signature.results, row(results));
    }
}

} // verus!
