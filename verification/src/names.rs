//! Finding an entry by its name in a list of named entries.

use vstd::prelude::*;

verus! {

/// The position of the first of `names` that is `name`, if any.
pub open spec fn position(names: Seq<Seq<char>>, name: Seq<char>) -> Option<int>
    decreases names.len(),
{
    if names.len() == 0 {
        None
    } else if position(names.drop_last(), name) is Some {
        position(names.drop_last(), name)
    } else if names.last() == name {
        Some(names.len() - 1)
    } else {
        None
    }
}

/// The names of a list of named entries.
pub open spec fn keys<T>(entries: Seq<(String, T)>) -> Seq<Seq<char>> {
    entries.map_values(|entry: (String, T)| entry.0@)
}

/// A name is found where it first occurs, and only a name that does not occur
/// is not found.
pub proof fn lemma_position(names: Seq<Seq<char>>, name: Seq<char>)
    ensures
        match position(names, name) {
            Some(i) => 0 <= i < names.len() && names[i] == name && forall|j: int|
                0 <= j < i ==> names[j] != name,
            None => !names.contains(name),
        },
    decreases names.len(),
{
    if names.len() > 0 {
        let init = names.drop_last();
        lemma_position(init, name);
        match position(init, name) {
            Some(i) => {
                assert forall|j: int| 0 <= j < i implies names[j] != name by {
                    assert(init[j] == names[j]);
                }
            },
            None => {
                assert forall|j: int| 0 <= j < names.len() - 1 implies names[j] != name by {
                    assert(init[j] == names[j]);
                    assert(init.contains(init[j]));
                }
            },
        }
    }
}

/// Something with a name.
pub(crate) trait Named {
    /// The name.
    spec fn name_view(&self) -> Seq<char>;

    /// The name.
    fn name(&self) -> (name: String)
        ensures
            name@ == self.name_view(),
    ;

    /// Whether this is the name.
    fn is_named(&self, name: &String) -> (r: bool)
        ensures
            r == (self.name_view() == name@),
    ;
}

impl Named for String {
    open spec fn name_view(&self) -> Seq<char> {
        self@
    }

    fn name(&self) -> (name: String) {
        self.clone()
    }

    fn is_named(&self, name: &String) -> (r: bool) {
        *self == *name
    }
}

impl<'a> Named for &'a str {
    open spec fn name_view(&self) -> Seq<char> {
        (*self)@
    }

    fn name(&self) -> (name: String) {
        (*self).to_owned()
    }

    fn is_named(&self, name: &String) -> (r: bool) {
        (*self).to_owned() == *name
    }
}

impl<T> Named for (String, T) {
    open spec fn name_view(&self) -> Seq<char> {
        self.0@
    }

    fn name(&self) -> (name: String) {
        self.0.clone()
    }

    fn is_named(&self, name: &String) -> (r: bool) {
        self.0 == *name
    }
}

/// The names of `items`.
pub(crate) open spec fn names_of<T: Named>(items: Seq<T>) -> Seq<Seq<char>> {
    items.map_values(|item: T| item.name_view())
}

/// Whether one of `items` is named `name`.
pub(crate) fn is_among<T: Named>(items: &[T], name: &str) -> (r: bool)
    ensures
        r == names_of(items@).contains(name@),
{
    let wanted = name.to_owned();
    let mut i: usize = 0;
    while i < items.len()
        invariant
            i <= items@.len(),
            wanted@ == name@,
            forall|j: int| 0 <= j < i ==> (#[trigger] names_of(items@)[j]) != name@,
        decreases items.len() - i,
    {
        if items[i].is_named(&wanted) {
            assert(names_of(items@)[i as int] == name@);
            return true;
        }
        i = i + 1;
    }
    false
}

/// Finds the first entry that is named `name`.
pub(crate) fn find<T>(entries: &Vec<(String, T)>, name: &str) -> (found: Option<usize>)
    ensures
        match found {
            Some(i) => position(keys(entries@), name@) == Some(i as int),
            None => position(keys(entries@), name@) is None,
        },
        found matches Some(i) ==> i < entries@.len() && entries@[i as int].0@ == name@,
{
    let wanted = name.to_owned();
    let ghost names = keys(entries@);
    let mut i: usize = 0;
    assert(names.take(0) =~= Seq::empty());
    while i < entries.len()
        invariant
            i <= entries@.len(),
            wanted@ == name@,
            names == keys(entries@),
            position(names.take(i as int), name@) is None,
        decreases entries.len() - i,
    {
        assert(names.take(i + 1).drop_last() =~= names.take(i as int));
        if entries[i].0 == wanted {
            proof {
                lemma_position_extends(names, i + 1, name@);
            }
            return Some(i);
        }
        i = i + 1;
    }
    assert(names.take(names.len() as int) =~= names);
    None
}

/// What is found in a prefix is what is found in the whole.
pub(crate) proof fn lemma_position_extends(names: Seq<Seq<char>>, n: int, name: Seq<char>)
    requires
        0 <= n <= names.len(),
        position(names.take(n), name) is Some,
    ensures
        position(names, name) == position(names.take(n), name),
    decreases names.len(),
{
    if n < names.len() {
        assert(names.drop_last().take(n) =~= names.take(n));
        lemma_position_extends(names.drop_last(), n, name);
    } else {
        assert(names.take(n) =~= names);
    }
}

} // verus!
