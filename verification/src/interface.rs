//! What composables export and import.

use vstd::prelude::*;

use crate::error::texts;
use crate::names::{is_among, names_of};

verus! {

/// Whether `name` is among `strings`.
pub(crate) fn holds(strings: &Vec<String>, name: &str) -> (r: bool)
    ensures
        r == texts(strings@).contains(name@),
{
    assert(names_of(strings@) =~= texts(strings@));
    is_among(strings.as_slice(), name)
}

/// Copies a list of strings.
pub(crate) fn copy_all(strings: &Vec<String>) -> (r: Vec<String>)
    ensures
        texts(r@) == texts(strings@),
{
    let mut copied: Vec<String> = Vec::new();
    let mut i: usize = 0;
    while i < strings.len()
        invariant
            i <= strings@.len(),
            copied@.len() == i,
            forall|j: int| 0 <= j < i ==> (#[trigger] copied@[j])@ == strings@[j]@,
        decreases strings.len() - i,
    {
        copied.push(strings[i].clone());
        i = i + 1;
    }
    assert(texts(copied@) =~= texts(strings@));
    copied
}

/// Set of interface names (exports or imports).
///
/// A name occurs once, however often it is inserted. The names keep the order in
/// which they were first inserted.
pub struct InterfaceSet {
    names: Vec<String>,
}

impl View for InterfaceSet {
    type V = Seq<Seq<char>>;

    closed spec fn view(&self) -> Seq<Seq<char>> {
        texts(self.names@)
    }
}

/// The set `names` with `name` in it.
pub open spec fn with_name(names: Seq<Seq<char>>, name: Seq<char>) -> Seq<Seq<char>> {
    if names.contains(name) {
        names
    } else {
        names.push(name)
    }
}

impl InterfaceSet {
    #[verifier::type_invariant]
    spec fn inv(self) -> bool {
        texts(self.names@).no_duplicates()
    }

    /// The empty set.
    pub fn new() -> (set: Self)
        ensures
            set@ == Seq::<Seq<char>>::empty(),
    {
        let set = InterfaceSet { names: Vec::new() };
        assert(set@ =~= Seq::empty());
        set
    }

    /// Puts `name` into the set and tells whether it is new there.
    pub fn insert(&mut self, name: String) -> (new: bool)
        ensures
            final(self)@ == with_name(old(self)@, name@),
            new == !old(self)@.contains(name@),
    {
        proof {
            use_type_invariant(&*self);
        }
        if self.contains(name.as_str()) {
            return false;
        }
        let ghost before = self@;
        let mut names: Vec<String> = Vec::new();
        std::mem::swap(&mut names, &mut self.names);
        names.push(name);
        assert(texts(names@) =~= before.push(name@));
        assert(texts(names@).no_duplicates());
        self.names = names;
        true
    }

    /// Whether `name` is in the set.
    pub fn contains(&self, name: &str) -> (r: bool)
        ensures
            r == self@.contains(name@),
    {
        holds(&self.names, name)
    }

    /// The number of names.
    pub fn len(&self) -> (n: usize)
        ensures
            n == self@.len(),
    {
        self.names.len()
    }

    /// The names, in the order in which they were first inserted.
    pub fn names(&self) -> (names: &Vec<String>)
        ensures
            texts(names@) == self@,
            self@.no_duplicates(),
    {
        proof {
            use_type_invariant(self);
        }
        &self.names
    }
}

impl Clone for InterfaceSet {
    fn clone(&self) -> (set: Self)
        ensures
            set@ == self@,
    {
        proof {
            use_type_invariant(self);
        }
        InterfaceSet { names: copy_all(&self.names) }
    }
}

/// A resolved internal link between two composables.
#[derive(Debug)]
pub struct ResolvedImport {
    /// ID of the composable that imports.
    pub importer_id: String,
    /// ID of the composable that exports (provides the import).
    pub exporter_id: String,
    /// Interface name.
    pub interface: String,
}

/// The mathematical view of a [`ResolvedImport`].
pub struct ImportView {
    pub importer_id: Seq<char>,
    pub exporter_id: Seq<char>,
    pub interface: Seq<char>,
}

impl View for ResolvedImport {
    type V = ImportView;

    open spec fn view(&self) -> ImportView {
        ImportView {
            importer_id: self.importer_id@,
            exporter_id: self.exporter_id@,
            interface: self.interface@,
        }
    }
}

impl ResolvedImport {
    /// The link by which `exporter_id` provides `interface` to `importer_id`.
    pub fn new(importer_id: String, exporter_id: String, interface: String) -> (link: Self)
        ensures
            link == (ResolvedImport { importer_id, exporter_id, interface }),
    {
        ResolvedImport { importer_id, exporter_id, interface }
    }
}

impl Clone for ResolvedImport {
    fn clone(&self) -> (link: Self)
        ensures
            link@ == self@,
    {
        ResolvedImport::new(
            self.importer_id.clone(),
            self.exporter_id.clone(),
            self.interface.clone(),
        )
    }
}

/// The views of a list of links.
pub open spec fn import_views(links: Seq<ResolvedImport>) -> Seq<ImportView> {
    links.map_values(|link: ResolvedImport| link@)
}

/// Type signature of a composable (what it exports and imports).
pub struct ComposableType {
    exports: InterfaceSet,
    imports: InterfaceSet,
}

/// The mathematical view of a [`ComposableType`].
pub struct TypeView {
    pub exports: Seq<Seq<char>>,
    pub imports: Seq<Seq<char>>,
}

impl View for ComposableType {
    type V = TypeView;

    closed spec fn view(&self) -> TypeView {
        TypeView { exports: self.exports@, imports: self.imports@ }
    }
}

impl ComposableType {
    /// The type with these exports and imports.
    pub fn new(exports: InterfaceSet, imports: InterfaceSet) -> (ty: Self)
        ensures
            ty@ == (TypeView { exports: exports@, imports: imports@ }),
    {
        ComposableType { exports, imports }
    }

    /// What is exported.
    pub fn exports(&self) -> (exports: &InterfaceSet)
        ensures
            exports@ == self@.exports,
    {
        &self.exports
    }

    /// What is imported.
    pub fn imports(&self) -> (imports: &InterfaceSet)
        ensures
            imports@ == self@.imports,
    {
        &self.imports
    }
}

impl Clone for ComposableType {
    fn clone(&self) -> (ty: Self)
        ensures
            ty@ == self@,
    {
        ComposableType::new(self.exports.clone(), self.imports.clone())
    }
}

impl Default for ComposableType {
    /// The type that exports and imports nothing.
    fn default() -> (ty: Self)
        ensures
            ty@.exports.len() == 0,
            ty@.imports.len() == 0,
    {
        ComposableType::new(InterfaceSet::new(), InterfaceSet::new())
    }
}

/// A name that is put into a set is in it, once, and nothing else changes there.
pub proof fn sets_hold_what_is_put_into_them(
    names: Seq<Seq<char>>,
    name: Seq<char>,
    other: Seq<char>,
)
    requires
        names.no_duplicates(),
    ensures
        with_name(names, name).no_duplicates(),
        with_name(names, name).contains(other) <==> other == name || names.contains(other),
        names.is_prefix_of(with_name(names, name)),
{
    let after = with_name(names, name);
    if !names.contains(name) {
        assert(after[names.len() as int] == name);
        if names.contains(other) {
            let i = choose|i: int| 0 <= i < names.len() && names[i] == other;
            assert(after[i] == other);
        }
        if after.contains(other) && other != name {
            let i = choose|i: int| 0 <= i < after.len() && after[i] == other;
            assert(names[i] == other);
        }
    }
}

} // verus!
