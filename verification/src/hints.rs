//! Hints that settle which of several composables provides an interface.

use vstd::prelude::*;

use crate::names::{find, keys, lemma_position, position};
use crate::wasm::entry_names;

verus! {

/// Which composable is to provide an interface, by the interface's name.
///
/// An interface has at most one hint: a later one replaces an earlier one.
pub struct HintMap {
    entries: Vec<(String, String)>,
}

/// The views of a list of hints.
pub open spec fn hint_views(entries: Seq<(String, String)>) -> Seq<(Seq<char>, Seq<char>)> {
    entries.map_values(|entry: (String, String)| (entry.0@, entry.1@))
}

impl View for HintMap {
    type V = Seq<(Seq<char>, Seq<char>)>;

    closed spec fn view(&self) -> Seq<(Seq<char>, Seq<char>)> {
        hint_views(self.entries@)
    }
}

/// The hint for `interface`, if there is one.
pub open spec fn hint_for(
    hints: Seq<(Seq<char>, Seq<char>)>,
    interface: Seq<char>,
) -> Option<Seq<char>> {
    match position(entry_names(hints), interface) {
        Some(i) => Some(hints[i].1),
        None => None,
    }
}

/// The hints `hints` with `id` as the hint for `interface`.
pub open spec fn with_hint(
    hints: Seq<(Seq<char>, Seq<char>)>,
    interface: Seq<char>,
    id: Seq<char>,
) -> Seq<(Seq<char>, Seq<char>)> {
    match position(entry_names(hints), interface) {
        Some(i) => hints.update(i, (interface, id)),
        None => hints.push((interface, id)),
    }
}

/// Hints have the names of their entries.
proof fn lemma_hint_names(entries: Seq<(String, String)>)
    ensures
        keys(entries) == entry_names(hint_views(entries)),
{
    assert(keys(entries) =~= entry_names(hint_views(entries)));
}

impl HintMap {
    #[verifier::type_invariant]
    spec fn inv(self) -> bool {
        entry_names(hint_views(self.entries@)).no_duplicates()
    }

    /// No hints.
    pub fn new() -> (hints: Self)
        ensures
            hints@ == Seq::<(Seq<char>, Seq<char>)>::empty(),
    {
        let hints = HintMap { entries: Vec::new() };
        assert(hints@ =~= Seq::empty());
        hints
    }

    /// Makes `id` the hint for `interface`.
    pub fn insert(&mut self, interface: String, id: String)
        ensures
            final(self)@ == with_hint(old(self)@, interface@, id@),
    {
        proof {
            use_type_invariant(&*self);
            lemma_hint_names(self.entries@);
            lemma_position(entry_names(self@), interface@);
        }
        let ghost before = self@;
        let ghost added = (interface@, id@);
        let found = find(&self.entries, interface.as_str());
        let mut entries: Vec<(String, String)> = Vec::new();
        std::mem::swap(&mut entries, &mut self.entries);
        match found {
            Some(i) => {
                entries.set(i, (interface, id));
                assert(hint_views(entries@) =~= before.update(i as int, added));
                assert(entry_names(hint_views(entries@)) =~= entry_names(before));
            },
            None => {
                entries.push((interface, id));
                assert(hint_views(entries@) =~= before.push(added));
                assert(entry_names(hint_views(entries@)) =~= entry_names(before).push(added.0));
            },
        }
        self.entries = entries;
    }

    /// The hint for `interface`, if there is one.
    pub fn get(&self, interface: &str) -> (id: Option<&String>)
        ensures
            match id {
                Some(id) => hint_for(self@, interface@) == Some(id@),
                None => hint_for(self@, interface@) is None,
            },
    {
        proof {
            lemma_hint_names(self.entries@);
        }
        match find(&self.entries, interface) {
            Some(i) => Some(&self.entries[i].1),
            None => None,
        }
    }

    /// The hints, in the order in which their interfaces were first named. No
    /// interface is named twice.
    pub fn entries(&self) -> (entries: &Vec<(String, String)>)
        ensures
            hint_views(entries@) == self@,
            entry_names(self@).no_duplicates(),
    {
        proof {
            use_type_invariant(self);
        }
        &self.entries
    }
}

/// The hint for an interface is the one that was given last, and it says nothing
/// of other interfaces.
pub proof fn the_last_hint_counts(
    hints: Seq<(Seq<char>, Seq<char>)>,
    interface: Seq<char>,
    id: Seq<char>,
    other: Seq<char>,
)
    ensures
        hint_for(with_hint(hints, interface, id), interface) == Some(id),
        other != interface ==> hint_for(with_hint(hints, interface, id), other) == hint_for(
            hints,
            other,
        ),
{
    let after = with_hint(hints, interface, id);
    lemma_position(entry_names(hints), interface);
    match position(entry_names(hints), interface) {
        Some(i) => {
            assert(entry_names(after) =~= entry_names(hints));
            lemma_position(entry_names(hints), other);
        },
        None => {
            assert(entry_names(after) =~= entry_names(hints).push(interface));
            assert(entry_names(after).drop_last() =~= entry_names(hints));
            lemma_position(entry_names(hints), other);
        },
    }
}

} // verus!
