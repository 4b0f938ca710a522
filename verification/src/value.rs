//! Component-model values as the composition logic sees them: a tree whose
//! leaves are resource handles and values that are passed through untouched.

use vstd::prelude::*;
use wasmtime::component::{ResourceAny, ResourceType};

verus! {

/// A component-model value.
///
/// Only the constructors that can hold a resource handle are taken apart.
/// Numbers, strings, enums, flags, futures and the like are carried whole in
/// [`Value::Plain`].
pub enum Value {
    /// A resource handle.
    Resource(ResourceAny),
    /// A list of values of one type.
    List(Vec<Value>),
    /// The named fields of a record.
    Record(Vec<(String, Value)>),
    /// The elements of a tuple.
    Tuple(Vec<Value>),
    /// The case of a variant and its payload.
    Variant(String, Option<Box<Value>>),
    /// An optional value.
    Option(Option<Box<Value>>),
    /// The payload of either arm of a result.
    Result(Result<Option<Box<Value>>, Option<Box<Value>>>),
    /// A value without resource handles.
    Plain(wasmtime::component::Val),
}

/// The mathematical view of a [`Value`].
pub enum ValueTree {
    Resource(ResourceAny),
    List(Seq<ValueTree>),
    Record(Seq<(Seq<char>, ValueTree)>),
    Tuple(Seq<ValueTree>),
    Variant(Seq<char>, Option<Box<ValueTree>>),
    Option(Option<Box<ValueTree>>),
    Result(Result<Option<Box<ValueTree>>, Option<Box<ValueTree>>>),
    Plain(wasmtime::component::Val),
}

/// The view of an optional payload.
pub open spec fn payload_tree(payload: Option<Box<Value>>) -> Option<Box<ValueTree>>
    decreases payload,
{
    match payload {
        Some(v) => Some(Box::new(v.tree())),
        None => None,
    }
}

/// The views of the values of a vector.
pub open spec fn value_trees(values: Seq<Value>) -> Seq<ValueTree>
    decreases values,
{
    Seq::new(
        values.len(),
        |i: int|
            if 0 <= i < values.len() {
                values[i].tree()
            } else {
                arbitrary()
            },
    )
}

/// The views of the fields of a record.
pub open spec fn field_trees(fields: Seq<(String, Value)>) -> Seq<(Seq<char>, ValueTree)>
    decreases fields,
{
    Seq::new(
        fields.len(),
        |i: int|
            if 0 <= i < fields.len() {
                (fields[i].0@, fields[i].1.tree())
            } else {
                arbitrary()
            },
    )
}

impl Value {
    /// The tree that this value stands for.
    pub open spec fn tree(self) -> ValueTree
        decreases self,
    {
        match self {
            Value::Resource(handle) => ValueTree::Resource(handle),
            Value::List(items) => ValueTree::List(value_trees(items@)),
            Value::Record(fields) => ValueTree::Record(field_trees(fields@)),
            Value::Tuple(items) => ValueTree::Tuple(value_trees(items@)),
            Value::Variant(case, payload) => ValueTree::Variant(case@, payload_tree(payload)),
            Value::Option(payload) => ValueTree::Option(payload_tree(payload)),
            Value::Result(Ok(payload)) => ValueTree::Result(Ok(payload_tree(payload))),
            Value::Result(Err(payload)) => ValueTree::Result(Err(payload_tree(payload))),
            Value::Plain(val) => ValueTree::Plain(val),
        }
    }
}

impl View for Value {
    type V = ValueTree;

    open spec fn view(&self) -> ValueTree {
        self.tree()
    }
}

impl ValueTree {
    /// Whether the value has a part at position `k`: an element, a field, or
    /// (at position 0) a payload.
    pub open spec fn has_child(self, k: int) -> bool {
        match self {
            ValueTree::List(items) => 0 <= k < items.len(),
            ValueTree::Record(fields) => 0 <= k < fields.len(),
            ValueTree::Tuple(items) => 0 <= k < items.len(),
            ValueTree::Variant(_, Some(_)) => k == 0,
            ValueTree::Option(Some(_)) => k == 0,
            ValueTree::Result(Ok(Some(_))) => k == 0,
            ValueTree::Result(Err(Some(_))) => k == 0,
            _ => false,
        }
    }

    /// The part at position `k`.
    pub open spec fn child(self, k: int) -> ValueTree {
        match self {
            ValueTree::List(items) => items[k],
            ValueTree::Record(fields) => fields[k].1,
            ValueTree::Tuple(items) => items[k],
            ValueTree::Variant(_, Some(payload)) => *payload,
            ValueTree::Option(Some(payload)) => *payload,
            ValueTree::Result(Ok(Some(payload))) => *payload,
            ValueTree::Result(Err(Some(payload))) => *payload,
            _ => self,
        }
    }

    /// The value with `part` at position `k`, and all else as it was.
    pub open spec fn with_child(self, k: int, part: ValueTree) -> ValueTree {
        match self {
            ValueTree::List(items) => ValueTree::List(items.update(k, part)),
            ValueTree::Record(fields) => ValueTree::Record(fields.update(k, (fields[k].0, part))),
            ValueTree::Tuple(items) => ValueTree::Tuple(items.update(k, part)),
            ValueTree::Variant(case, Some(_)) => ValueTree::Variant(case, Some(Box::new(part))),
            ValueTree::Option(Some(_)) => ValueTree::Option(Some(Box::new(part))),
            ValueTree::Result(Ok(Some(_))) => ValueTree::Result(Ok(Some(Box::new(part)))),
            ValueTree::Result(Err(Some(_))) => ValueTree::Result(Err(Some(Box::new(part)))),
            _ => self,
        }
    }

    /// The value in which the part that `path` leads to is the resource
    /// `handle`, and all else is as it was.
    pub open spec fn with_handle(self, path: Seq<int>, handle: ResourceAny) -> ValueTree
        decreases path.len(),
    {
        if path.len() == 0 {
            ValueTree::Resource(handle)
        } else {
            self.with_child(
                path[0],
                self.child(path[0]).with_handle(path.drop_first(), handle),
            )
        }
    }
}

/// A resource handle inside a value: where it is, what it is, and the resource
/// type that the value's type gives to that place.
pub struct Leaf {
    pub path: Seq<int>,
    pub handle: ResourceAny,
    pub ty: ResourceType,
}

/// The leaf, seen from a value whose part at position `k` holds it.
pub open spec fn under(k: int, leaf: Leaf) -> Leaf {
    Leaf { path: seq![k] + leaf.path, handle: leaf.handle, ty: leaf.ty }
}

/// The leaves, seen from a value whose part at position `k` holds them.
pub open spec fn all_under(k: int, leaves: Seq<Leaf>) -> Seq<Leaf> {
    leaves.map_values(|leaf: Leaf| under(k, leaf))
}

/// The value in which the first of `leaves` hold the handles of `handles`, as
/// many as there are.
pub open spec fn with_handles(
    value: ValueTree,
    leaves: Seq<Leaf>,
    handles: Seq<ResourceAny>,
) -> ValueTree
    decreases handles.len(),
{
    if handles.len() == 0 {
        value
    } else {
        with_handles(value, leaves, handles.drop_last()).with_handle(
            leaves[handles.len() - 1].path,
            handles.last(),
        )
    }
}

/// The handles at `leaves`.
pub open spec fn handles_at(leaves: Seq<Leaf>) -> Seq<ResourceAny> {
    leaves.map_values(|leaf: Leaf| leaf.handle)
}

/// The part of `value` that `path` leads to, if there is one.
pub open spec fn part_at(value: ValueTree, path: Seq<int>) -> Option<ValueTree>
    decreases path.len(),
{
    if path.len() == 0 {
        Some(value)
    } else if value.has_child(path[0]) {
        part_at(value.child(path[0]), path.drop_first())
    } else {
        None
    }
}

/// `leaves` are handles of `value`, at the places where they say.
pub open spec fn are_in(leaves: Seq<Leaf>, value: ValueTree) -> bool {
    forall|i: int|
        0 <= i < leaves.len() ==> part_at(value, (#[trigger] leaves[i]).path) == Some(
            ValueTree::Resource(leaves[i].handle),
        )
}

/// Handles of a part are handles of the whole.
pub(crate) proof fn lemma_are_in_under(value: ValueTree, k: int, leaves: Seq<Leaf>)
    requires
        value.has_child(k),
        are_in(leaves, value.child(k)),
    ensures
        are_in(all_under(k, leaves), value),
{
    assert forall|i: int| 0 <= i < leaves.len() implies part_at(
        value,
        (#[trigger] all_under(k, leaves)[i]).path,
    ) == Some(ValueTree::Resource(leaves[i].handle)) by {
        let path = all_under(k, leaves)[i].path;
        assert(path == seq![k] + leaves[i].path);
        assert(path.drop_first() =~= leaves[i].path);
        assert(part_at(value.child(k), leaves[i].path) == Some(
            ValueTree::Resource(leaves[i].handle),
        ));
    }
}

/// A value with its own handles in it is that value.
pub(crate) proof fn lemma_own_handles(value: ValueTree, leaves: Seq<Leaf>, handles: Seq<ResourceAny>)
    requires
        are_in(leaves, value),
        handles.len() <= leaves.len(),
        forall|i: int| 0 <= i < handles.len() ==> (#[trigger] handles[i]) == leaves[i].handle,
    ensures
        with_handles(value, leaves, handles) == value,
    decreases handles.len(),
{
    if handles.len() > 0 {
        let n = handles.len() - 1;
        lemma_own_handles(value, leaves, handles.drop_last());
        assert(part_at(value, leaves[n].path) == Some(ValueTree::Resource(leaves[n].handle)));
        lemma_own_handle(value, leaves[n].path, handles[n]);
    }
}

proof fn lemma_own_handle(value: ValueTree, path: Seq<int>, handle: ResourceAny)
    requires
        part_at(value, path) == Some(ValueTree::Resource(handle)),
    ensures
        value.with_handle(path, handle) == value,
    decreases path.len(),
{
    if path.len() > 0 {
        lemma_own_handle(value.child(path[0]), path.drop_first(), handle);
        lemma_with_own_child(value, path[0]);
    }
}

pub(crate) proof fn lemma_child_of_with_child(value: ValueTree, k: int, part: ValueTree)
    requires
        value.has_child(k),
    ensures
        value.with_child(k, part).has_child(k),
        value.with_child(k, part).child(k) == part,
{
}

pub(crate) proof fn lemma_other_child(value: ValueTree, k: int, part: ValueTree, j: int)
    requires
        value.has_child(k),
        value.has_child(j),
        j != k,
    ensures
        value.with_child(k, part).has_child(j),
        value.with_child(k, part).child(j) == value.child(j),
{
}

pub(crate) proof fn lemma_with_child_twice(value: ValueTree, k: int, a: ValueTree, b: ValueTree)
    requires
        value.has_child(k),
    ensures
        value.with_child(k, a).with_child(k, b) == value.with_child(k, b),
{
    match value {
        ValueTree::List(items) => assert(items.update(k, a).update(k, b) =~= items.update(k, b)),
        ValueTree::Tuple(items) => assert(items.update(k, a).update(k, b) =~= items.update(k, b)),
        ValueTree::Record(fields) => {
            assert(fields.update(k, (fields[k].0, a)).update(k, (fields[k].0, b)) =~= fields.update(
                k,
                (fields[k].0, b),
            ));
        },
        _ => {},
    }
}

pub(crate) proof fn lemma_with_own_child(value: ValueTree, k: int)
    requires
        value.has_child(k),
    ensures
        value.with_child(k, value.child(k)) == value,
{
    match value {
        ValueTree::List(items) => assert(items.update(k, items[k]) =~= items),
        ValueTree::Tuple(items) => assert(items.update(k, items[k]) =~= items),
        ValueTree::Record(fields) => {
            assert(fields.update(k, (fields[k].0, fields[k].1)) =~= fields);
        },
        _ => {},
    }
}

/// Putting handles into a part is putting that part, with the handles in it,
/// into the whole.
pub(crate) proof fn lemma_handles_under(
    value: ValueTree,
    k: int,
    leaves: Seq<Leaf>,
    handles: Seq<ResourceAny>,
)
    requires
        value.has_child(k),
        handles.len() <= leaves.len(),
    ensures
        with_handles(value, all_under(k, leaves), handles) == value.with_child(
            k,
            with_handles(value.child(k), leaves, handles),
        ),
    decreases handles.len(),
{
    if handles.len() == 0 {
        lemma_with_own_child(value, k);
    } else {
        let n = handles.len() - 1;
        lemma_handles_under(value, k, leaves, handles.drop_last());
        let inner = with_handles(value.child(k), leaves, handles.drop_last());
        let outer = value.with_child(k, inner);
        lemma_child_of_with_child(value, k, inner);
        let path = all_under(k, leaves)[n].path;
        assert(path == seq![k] + leaves[n].path);
        assert(path.drop_first() =~= leaves[n].path);
        lemma_with_child_twice(value, k, inner, inner.with_handle(leaves[n].path, handles.last()));
    }
}

/// Handles may be put in two goes.
pub(crate) proof fn lemma_handles_append(
    value: ValueTree,
    first: Seq<Leaf>,
    second: Seq<Leaf>,
    a: Seq<ResourceAny>,
    b: Seq<ResourceAny>,
)
    requires
        a.len() == first.len(),
        b.len() <= second.len(),
    ensures
        with_handles(value, first + second, a + b) == with_handles(
            with_handles(value, first, a),
            second,
            b,
        ),
    decreases b.len(),
{
    if b.len() == 0 {
        assert(a + b =~= a);
        lemma_handles_prefix(value, first, second, a);
    } else {
        lemma_handles_append(value, first, second, a, b.drop_last());
        assert((a + b).drop_last() =~= a + b.drop_last());
    }
}

/// Leaves beyond the handles do not matter.
pub(crate) proof fn lemma_handles_prefix(
    value: ValueTree,
    first: Seq<Leaf>,
    second: Seq<Leaf>,
    handles: Seq<ResourceAny>,
)
    requires
        handles.len() <= first.len(),
    ensures
        with_handles(value, first + second, handles) == with_handles(value, first, handles),
    decreases handles.len(),
{
    if handles.len() > 0 {
        lemma_handles_prefix(value, first, second, handles.drop_last());
    }
}

} // verus!
