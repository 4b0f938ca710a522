//! Reading component-model values and writing them back.

use vstd::prelude::*;
use wasmtime::component::Val;

use crate::value::{field_trees, payload_tree, value_trees, Value, ValueTree};
use crate::wasm::{named, val_of_shape, val_shape, val_shape_of, ShapeView, ValShape};

verus! {

/// `tree` is the component-model value `val`. A part that is not taken apart is that
/// part of the value.
pub open spec fn is_value(val: Val, tree: ValueTree) -> bool
    decreases tree, 0nat,
{
    match tree {
        ValueTree::Resource(handle) => val_shape_of(val) == ShapeView::Resource(handle),
        ValueTree::List(items) => val_shape_of(val) matches ShapeView::List(vals) && are_values(
            vals,
            items,
        ),
        ValueTree::Record(fields) => val_shape_of(val) matches ShapeView::Record(vals)
            && are_fields(vals, fields),
        ValueTree::Tuple(items) => val_shape_of(val) matches ShapeView::Tuple(vals) && are_values(
            vals,
            items,
        ),
        ValueTree::Variant(case, payload) => val_shape_of(val) matches ShapeView::Variant(name, inner)
            && name == case && is_payload(inner, payload),
        ValueTree::Option(payload) => val_shape_of(val) matches ShapeView::Option(inner)
            && is_payload(inner, payload),
        ValueTree::Result(Ok(payload)) => val_shape_of(val) matches ShapeView::Result(Ok(inner))
            && is_payload(inner, payload),
        ValueTree::Result(Err(payload)) => val_shape_of(val) matches ShapeView::Result(Err(inner))
            && is_payload(inner, payload),
        ValueTree::Plain(same) => same == val,
    }
}

/// `trees` are the values `vals`, one for one.
pub open spec fn are_values(vals: Seq<Val>, trees: Seq<ValueTree>) -> bool
    decreases trees, 1nat,
{
    &&& vals.len() == trees.len()
    &&& forall|i: int| 0 <= i < trees.len() ==> is_value(vals[i], #[trigger] trees[i])
}

/// `trees` are the fields `vals`, one for one.
pub open spec fn are_fields(vals: Seq<(Seq<char>, Val)>, trees: Seq<(Seq<char>, ValueTree)>) -> bool
    decreases trees, 1nat,
{
    &&& vals.len() == trees.len()
    &&& forall|i: int|
        0 <= i < trees.len() ==> vals[i].0 == (#[trigger] trees[i]).0 && is_value(
            vals[i].1,
            trees[i].1,
        )
}

/// `tree` is the payload `val`, if there is one.
pub open spec fn is_payload(val: Option<Val>, tree: Option<Box<ValueTree>>) -> bool
    decreases tree, 1nat,
{
    match (val, tree) {
        (Some(val), Some(tree)) => is_value(val, *tree),
        (None, None) => true,
        _ => false,
    }
}

/// Everything that can hold a resource handle is taken apart.
pub open spec fn taken_apart(tree: ValueTree) -> bool
    decreases tree,
{
    match tree {
        ValueTree::Resource(_) => true,
        ValueTree::List(items) => forall|i: int|
            0 <= i < items.len() ==> taken_apart(#[trigger] items[i]),
        ValueTree::Record(fields) => forall|i: int|
            0 <= i < fields.len() ==> taken_apart((#[trigger] fields[i]).1),
        ValueTree::Tuple(items) => forall|i: int|
            0 <= i < items.len() ==> taken_apart(#[trigger] items[i]),
        ValueTree::Variant(_, payload) => payload matches Some(inner) ==> taken_apart(*inner),
        ValueTree::Option(payload) => payload matches Some(inner) ==> taken_apart(*inner),
        ValueTree::Result(Ok(payload)) => payload matches Some(inner) ==> taken_apart(*inner),
        ValueTree::Result(Err(payload)) => payload matches Some(inner) ==> taken_apart(*inner),
        ValueTree::Plain(val) => val_shape_of(val) is Other,
    }
}

/// `tree` is how the value `val` is read.
pub open spec fn reads_as(val: Val, tree: ValueTree) -> bool {
    is_value(val, tree) && taken_apart(tree)
}

// ---------------------------------------------------------------------------
// Reading
// ---------------------------------------------------------------------------

/// Reads a component-model value.
pub fn read_value(val: Val) -> (value: Value)
    ensures
        reads_as(val, value@),
    decreases val, 1nat,
{
    match val_shape(val) {
        ValShape::Resource(handle) => Value::Resource(handle),
        ValShape::List(items) => Value::List(read_values(items)),
        ValShape::Record(fields) => Value::Record(read_fields(fields)),
        ValShape::Tuple(items) => Value::Tuple(read_values(items)),
        ValShape::Variant(case, payload) => Value::Variant(case, read_payload(payload, Ghost(val))),
        ValShape::Option(payload) => Value::Option(read_payload(payload, Ghost(val))),
        ValShape::Result(Ok(payload)) => Value::Result(Ok(read_payload(payload, Ghost(val)))),
        ValShape::Result(Err(payload)) => Value::Result(Err(read_payload(payload, Ghost(val)))),
        ValShape::Other(val) => Value::Plain(val),
    }
}

/// Reads the payload of `whole`, if there is one.
fn read_payload(payload: Option<Val>, Ghost(whole): Ghost<Val>) -> (value: Option<Box<Value>>)
    requires
        payload matches Some(val) ==> decreases_to!(whole => val),
    ensures
        is_payload(payload, payload_tree(value)),
        payload_tree(value) matches Some(tree) ==> taken_apart(*tree),
    decreases whole, 0nat,
{
    match payload {
        Some(val) => Some(Box::new(read_value(val))),
        None => None,
    }
}

/// Reads a row of component-model values.
pub fn read_values(vals: Vec<Val>) -> (values: Vec<Value>)
    ensures
        values@.len() == vals@.len(),
        forall|i: int| 0 <= i < vals@.len() ==> reads_as(vals@[i], (#[trigger] values@[i])@),
        are_values(vals@, value_trees(values@)),
    decreases vals@,
{
    let ghost all = vals@;
    let mut values: Vec<Value> = Vec::new();
    for val in iter: vals
        invariant
            iter.seq() == all,
            all == vals@,
            values@.len() == iter.index(),
            forall|j: int| 0 <= j < iter.index() ==> reads_as(all[j], (#[trigger] values@[j])@),
    {
        values.push(read_value(val));
    }
    values
}

/// Reads the fields of a record.
fn read_fields(fields: Vec<(String, Val)>) -> (r: Vec<(String, Value)>)
    ensures
        are_fields(named(fields@), field_trees(r@)),
        forall|i: int| 0 <= i < r@.len() ==> taken_apart((#[trigger] r@[i]).1@),
    decreases fields@,
{
    let ghost all = fields@;
    let mut read: Vec<(String, Value)> = Vec::new();
    for field in iter: fields
        invariant
            iter.seq() == all,
            all == fields@,
            read@.len() == iter.index(),
            forall|j: int|
                0 <= j < iter.index() ==> all[j].0@ == (#[trigger] read@[j]).0@ && reads_as(
                    all[j].1,
                    read@[j].1@,
                ),
    {
        read.push((field.0, read_value(field.1)));
    }
    read
}

// ---------------------------------------------------------------------------
// Writing
// ---------------------------------------------------------------------------

/// Writes a value as a component-model value.
pub fn write_value(value: Value) -> (val: Val)
    ensures
        is_value(val, value@),
    decreases value,
{
    match value {
        Value::Resource(handle) => val_of_shape(ValShape::Resource(handle)),
        Value::List(items) => val_of_shape(ValShape::List(write_values(items))),
        Value::Record(fields) => val_of_shape(ValShape::Record(write_fields(fields))),
        Value::Tuple(items) => val_of_shape(ValShape::Tuple(write_values(items))),
        Value::Variant(case, payload) => {
            let inner = write_payload(payload);
            val_of_shape(ValShape::Variant(case, inner))
        },
        Value::Option(payload) => {
            let inner = write_payload(payload);
            val_of_shape(ValShape::Option(inner))
        },
        Value::Result(Ok(payload)) => {
            let inner = write_payload(payload);
            val_of_shape(ValShape::Result(Ok(inner)))
        },
        Value::Result(Err(payload)) => {
            let inner = write_payload(payload);
            val_of_shape(ValShape::Result(Err(inner)))
        },
        Value::Plain(val) => val,
    }
}

/// Writes a payload, if there is one.
fn write_payload(payload: Option<Box<Value>>) -> (val: Option<Val>)
    ensures
        is_payload(val, payload_tree(payload)),
    decreases payload,
{
    match payload {
        Some(value) => Some(write_value(*value)),
        None => None,
    }
}

/// Writes a row of values.
pub fn write_values(values: Vec<Value>) -> (vals: Vec<Val>)
    ensures
        are_values(vals@, value_trees(values@)),
    decreases values,
{
    let ghost all = values@;
    let mut vals: Vec<Val> = Vec::new();
    for value in iter: values
        invariant
            iter.seq() == all,
            all == values@,
            vals@.len() == iter.index(),
            forall|j: int| 0 <= j < iter.index() ==> is_value(#[trigger] vals@[j], all[j]@),
    {
        vals.push(write_value(value));
    }
    vals
}

/// Writes the fields of a record.
fn write_fields(fields: Vec<(String, Value)>) -> (vals: Vec<(String, Val)>)
    ensures
        are_fields(named(vals@), field_trees(fields@)),
    decreases fields,
{
    let ghost all = fields@;
    let mut vals: Vec<(String, Val)> = Vec::new();
    for field in iter: fields
        invariant
            iter.seq() == all,
            all == fields@,
            vals@.len() == iter.index(),
            forall|j: int|
                0 <= j < iter.index() ==> (#[trigger] vals@[j]).0@ == all[j].0@ && is_value(
                    vals@[j].1,
                    all[j].1@,
                ),
    {
        vals.push((field.0, write_value(field.1)));
    }
    vals
}

// ---------------------------------------------------------------------------
// Laws
// ---------------------------------------------------------------------------

/// A value that is written is read back as it was: there is one way only to read a
/// component-model value.
pub proof fn written_values_are_read_back(val: Val, written: ValueTree, read: ValueTree)
    requires
        is_value(val, written),
        taken_apart(written),
        reads_as(val, read),
    ensures
        read == written,
    decreases written, 0nat,
{
    match (written, read) {
        (ValueTree::List(a), ValueTree::List(b)) => {
            lemma_values_read_back(val_shape_of(val)->List_0, a, b);
        },
        (ValueTree::Tuple(a), ValueTree::Tuple(b)) => {
            lemma_values_read_back(val_shape_of(val)->Tuple_0, a, b);
        },
        (ValueTree::Record(a), ValueTree::Record(b)) => {
            let vals = val_shape_of(val)->Record_0;
            assert(are_fields(vals, a) && are_fields(vals, b));
            assert forall|i: int| 0 <= i < a.len() implies a[i] == b[i] by {
                assert(vals[i].0 == a[i].0 && vals[i].0 == b[i].0);
                assert(taken_apart(a[i].1) && taken_apart(b[i].1));
                written_values_are_read_back(vals[i].1, a[i].1, b[i].1);
            }
            assert(a =~= b);
        },
        (ValueTree::Variant(_, a), ValueTree::Variant(_, b)) => {
            lemma_payload_read_back(val_shape_of(val)->Variant_1, a, b);
        },
        (ValueTree::Option(a), ValueTree::Option(b)) => {
            lemma_payload_read_back(val_shape_of(val)->Option_0, a, b);
        },
        (ValueTree::Result(Ok(a)), ValueTree::Result(Ok(b))) => {
            lemma_payload_read_back(val_shape_of(val)->Result_0->Ok_0, a, b);
        },
        (ValueTree::Result(Err(a)), ValueTree::Result(Err(b))) => {
            lemma_payload_read_back(val_shape_of(val)->Result_0->Err_0, a, b);
        },
        _ => {},
    }
}

proof fn lemma_values_read_back(vals: Seq<Val>, a: Seq<ValueTree>, b: Seq<ValueTree>)
    requires
        are_values(vals, a),
        are_values(vals, b),
        forall|i: int| 0 <= i < a.len() ==> taken_apart(#[trigger] a[i]),
        forall|i: int| 0 <= i < b.len() ==> taken_apart(#[trigger] b[i]),
    ensures
        a == b,
    decreases a, 1nat,
{
    assert forall|i: int| 0 <= i < a.len() implies a[i] == b[i] by {
        assert(is_value(vals[i], a[i]) && is_value(vals[i], b[i]));
        written_values_are_read_back(vals[i], a[i], b[i]);
    }
    assert(a =~= b);
}

proof fn lemma_payload_read_back(
    val: Option<Val>,
    a: Option<Box<ValueTree>>,
    b: Option<Box<ValueTree>>,
)
    requires
        is_payload(val, a),
        is_payload(val, b),
        a matches Some(inner) ==> taken_apart(*inner),
        b matches Some(inner) ==> taken_apart(*inner),
    ensures
        a == b,
    decreases a, 1nat,
{
    if let (Some(x), Some(y)) = (a, b) {
        written_values_are_read_back(val->0, *x, *y);
    }
}

/// A value is read for what it is: a handle, or what it is made of, part by part. Only a
/// value that can hold no handle is left as it is.
pub proof fn values_are_read_for_what_they_are(val: Val, tree: ValueTree)
    requires
        reads_as(val, tree),
    ensures
        match val_shape_of(val) {
            ShapeView::Resource(handle) => tree == ValueTree::Resource(handle),
            ShapeView::List(vals) => tree matches ValueTree::List(items) && items.len()
                == vals.len() && forall|i: int|
                0 <= i < vals.len() ==> reads_as(vals[i], #[trigger] items[i]),
            ShapeView::Tuple(vals) => tree matches ValueTree::Tuple(items) && items.len()
                == vals.len() && forall|i: int|
                0 <= i < vals.len() ==> reads_as(vals[i], #[trigger] items[i]),
            ShapeView::Record(vals) => tree matches ValueTree::Record(fields) && fields.len()
                == vals.len() && forall|i: int|
                0 <= i < vals.len() ==> (#[trigger] fields[i]).0 == vals[i].0 && reads_as(
                    vals[i].1,
                    fields[i].1,
                ),
            ShapeView::Variant(name, payload) => tree matches ValueTree::Variant(case, inner)
                && case == name && match (payload, inner) {
                (Some(val), Some(inner)) => reads_as(val, *inner),
                (None, None) => true,
                _ => false,
            },
            ShapeView::Option(payload) => tree matches ValueTree::Option(inner) && match (
                payload,
                inner,
            ) {
                (Some(val), Some(inner)) => reads_as(val, *inner),
                (None, None) => true,
                _ => false,
            },
            ShapeView::Result(Ok(payload)) => tree matches ValueTree::Result(Ok(inner)) && match (
                payload,
                inner,
            ) {
                (Some(val), Some(inner)) => reads_as(val, *inner),
                (None, None) => true,
                _ => false,
            },
            ShapeView::Result(Err(payload)) => tree matches ValueTree::Result(Err(inner)) && match (
                payload,
                inner,
            ) {
                (Some(val), Some(inner)) => reads_as(val, *inner),
                (None, None) => true,
                _ => false,
            },
            ShapeView::Other(_) => tree == ValueTree::Plain(val),
        },
{
}

} // verus!
