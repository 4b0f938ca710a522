//! Composables some of whose exports are hidden.

use vstd::prelude::*;

use crate::composable::{Composable, Linkable};
use crate::instance::{not_exported, refuse_export};
use crate::interface::{ComposableType, InterfaceSet, TypeView};
use crate::link::{LinkPlan, OpView, PlanView};
use crate::names::{is_among, names_of};

verus! {

/// Decorator that wraps any [`Composable`] with pre-filtered exports.
///
/// What is filtered out is neither reported nor linked.
pub struct Filtered<C> {
    inner: C,
    ty: ComposableType,
}

impl<C> Filtered<C> {
    /// The composable inside.
    pub closed spec fn inside(&self) -> C {
        self.inner
    }

    /// The type signature that is left.
    pub closed spec fn kept(&self) -> TypeView {
        self.ty@
    }

    /// The composable inside, and the type signature that is left.
    pub fn into_parts(self) -> (parts: (C, ComposableType))
        ensures
            parts.0 == self.inside(),
            parts.1@ == self.kept(),
    {
        (self.inner, self.ty)
    }
}

impl<C: Composable> Composable for Filtered<C> {
    open spec fn type_view(&self) -> TypeView {
        self.kept()
    }

    fn ty(&self) -> (ty: &ComposableType) {
        &self.ty
    }
}

impl<C: Linkable> Linkable for Filtered<C> {
    open spec fn plan_view(&self, name: Seq<char>) -> PlanView {
        if self.kept().exports.contains(name) {
            self.inside().plan_view(name)
        } else {
            not_exported(name)
        }
    }

    open spec fn accepts_imports(&self) -> bool {
        self.inside().accepts_imports()
    }

    fn link_export(&self, name: &str) -> (plan: LinkPlan) {
        if self.ty.exports().contains(name) {
            self.inner.link_export(name)
        } else {
            refuse_export(name)
        }
    }

    fn link_import(&self, exported: LinkPlan) -> (plan: LinkPlan) {
        self.inner.link_import(exported)
    }
}

/// Those of `names` for which `keep` holds at the same position.
pub open spec fn select(names: Seq<Seq<char>>, keep: Seq<bool>) -> Seq<Seq<char>>
    decreases names.len(),
{
    if names.len() == 0 {
        Seq::empty()
    } else {
        let init = select(names.drop_last(), keep);
        if keep[names.len() - 1] {
            init.push(names.last())
        } else {
            init
        }
    }
}

/// `f` may return `keep` for `name`.
pub open spec fn may_answer<F: Fn(&str) -> bool>(f: F, name: Seq<char>, keep: bool) -> bool {
    exists|text: &str| text@ == name && #[trigger] call_ensures(f, (text,), keep)
}

/// `f` may return `keep` for the names, one for one.
pub open spec fn answers<F: Fn(&str) -> bool>(
    f: F,
    names: Seq<Seq<char>>,
    keep: Seq<bool>,
) -> bool {
    &&& keep.len() == names.len()
    &&& forall|i: int|
        0 <= i < names.len() ==> may_answer(f, names[i], #[trigger] keep[i])
}

/// The type `ty` with those exports only that are in `allow`.
pub open spec fn exposed(ty: TypeView, allow: Seq<Seq<char>>) -> TypeView {
    TypeView {
        exports: ty.exports.filter(|name: Seq<char>| allow.contains(name)),
        imports: ty.imports,
    }
}

/// The type `ty` without the exports that are in `deny`.
pub open spec fn hidden(ty: TypeView, deny: Seq<Seq<char>>) -> TypeView {
    TypeView {
        exports: ty.exports.filter(|name: Seq<char>| !deny.contains(name)),
        imports: ty.imports,
    }
}

/// The texts of string slices.
pub open spec fn slice_texts(names: Seq<&str>) -> Seq<Seq<char>> {
    names.map_values(|name: &str| name@)
}

/// Whether `name` is among `names`.
fn is_listed(names: &[&str], name: &str) -> (r: bool)
    ensures
        r == slice_texts(names@).contains(name@),
{
    assert(names_of(names@) =~= slice_texts(names@));
    is_among(names, name)
}

/// Extension methods for filtering exports of any [`Composable`].
pub trait ExportFilter: Composable + Sized {
    /// Filter exports by predicate on interface name.
    fn filter_exports<F: Fn(&str) -> bool>(self, f: F) -> (filtered: Filtered<Self>)
        requires
            forall|name: &str| call_requires(f, (name,)),
        ensures
            filtered.inside() == self,
            filtered.kept().imports == self.type_view().imports,
            exists|keep: Seq<bool>| #[trigger]
                answers(f, self.type_view().exports, keep) && filtered.kept().exports == select(
                    self.type_view().exports,
                    keep,
                ),
    {
        let ghost all = self.type_view().exports;
        let mut exports = InterfaceSet::new();
        let ghost mut keep: Seq<bool> = Seq::empty();
        let names = self.ty().exports().names();
        let mut i: usize = 0;
        while i < names.len()
            invariant
                i <= names@.len(),
                forall|name: &str| call_requires(f, (name,)),
                crate::error::texts(names@) == all,
                all.no_duplicates(),
                answers(f, all.take(i as int), keep),
                exports@ == select(all.take(i as int), keep),
            decreases names.len() - i,
        {
            let name = names[i].as_str();
            let kept = f(name);
            proof {
                assert(name@ == all[i as int]);
                assert(call_ensures(f, (name,), kept));
                assert(may_answer(f, all[i as int], kept));
                lemma_select(all.take(i as int), keep);
                assert(all.take(i + 1).drop_last() =~= all.take(i as int));
                lemma_select_more(all.take(i as int), keep, kept);
                keep = keep.push(kept);
            }
            if kept {
                let _ = exports.insert(names[i].clone());
            }
            i = i + 1;
        }
        assert(all.take(i as int) =~= all);
        let imports = self.ty().imports().clone();
        let ty = ComposableType::new(exports, imports);
        Filtered { inner: self, ty }
    }

    /// Keep only exports whose names are in `allow`.
    fn exposing(self, allow: &[&str]) -> (filtered: Filtered<Self>)
        ensures
            filtered.inside() == self,
            filtered.kept() == exposed(self.type_view(), slice_texts(allow@)),
    {
        let listed = |name: &str| -> (r: bool)
            ensures
                r == slice_texts(allow@).contains(name@),
            { is_listed(allow, name) };
        let filtered = self.filter_exports(listed);
        proof {
            let keep = choose|keep: Seq<bool>| #[trigger]
                answers(listed, self.type_view().exports, keep) && filtered.kept().exports
                    == select(self.type_view().exports, keep);
            assert forall|i: int| 0 <= i < keep.len() implies #[trigger] keep[i] == slice_texts(
                allow@,
            ).contains(self.type_view().exports[i]) by {
                assert(may_answer(listed, self.type_view().exports[i], keep[i]));
            }
            lemma_select_filter(
                self.type_view().exports,
                keep,
                |name: Seq<char>| slice_texts(allow@).contains(name),
            );
        }
        filtered
    }

    /// Remove exports whose names are in `deny`; keep everything else.
    fn hiding(self, deny: &[&str]) -> (filtered: Filtered<Self>)
        ensures
            filtered.inside() == self,
            filtered.kept() == hidden(self.type_view(), slice_texts(deny@)),
    {
        let unlisted = |name: &str| -> (r: bool)
            ensures
                r == !slice_texts(deny@).contains(name@),
            { !is_listed(deny, name) };
        let filtered = self.filter_exports(unlisted);
        proof {
            let keep = choose|keep: Seq<bool>| #[trigger]
                answers(unlisted, self.type_view().exports, keep) && filtered.kept().exports
                    == select(self.type_view().exports, keep);
            assert forall|i: int| 0 <= i < keep.len() implies #[trigger] keep[i] == !slice_texts(
                deny@,
            ).contains(self.type_view().exports[i]) by {
                assert(may_answer(unlisted, self.type_view().exports[i], keep[i]));
            }
            lemma_select_filter(
                self.type_view().exports,
                keep,
                |name: Seq<char>| !slice_texts(deny@).contains(name),
            );
        }
        filtered
    }
}

impl<T: Composable + Sized> ExportFilter for T {

}

/// Of all the exports, exposing a list of names keeps just those that hiding the
/// same list removes. Neither touches the imports.
pub proof fn exposing_and_hiding_split_the_exports(
    ty: TypeView,
    list: Seq<Seq<char>>,
    name: Seq<char>,
)
    ensures
        exposed(ty, list).exports.contains(name) <==> ty.exports.contains(name) && list.contains(
            name,
        ),
        hidden(ty, list).exports.contains(name) <==> ty.exports.contains(name) && !list.contains(
            name,
        ),
        exposed(ty, list).imports == ty.imports,
        hidden(ty, list).imports == ty.imports,
{
    lemma_filter_contains(ty.exports, |n: Seq<char>| list.contains(n), name);
    lemma_filter_contains(ty.exports, |n: Seq<char>| !list.contains(n), name);
}

/// A predicate keeps just the exports for which it says so, in their order.
pub proof fn a_predicate_keeps_what_it_says(
    names: Seq<Seq<char>>,
    keep: Seq<bool>,
    name: Seq<char>,
)
    requires
        names.no_duplicates(),
        keep.len() == names.len(),
    ensures
        select(names, keep).contains(name) <==> exists|i: int|
            0 <= i < names.len() && #[trigger] names[i] == name && keep[i],
        select(names, keep).len() <= names.len(),
    decreases names.len(),
{
    if names.len() > 0 {
        let n = names.len() - 1;
        let init = names.drop_last();
        let before = select(init, keep);
        let chosen = select(names, keep);
        assert(select(init, keep) == select(init, keep.drop_last())) by {
            assert(keep =~= keep.drop_last().push(keep.last()));
            lemma_select_more(init, keep.drop_last(), keep.last());
        }
        a_predicate_keeps_what_it_says(init, keep.drop_last(), name);
        assert(forall|i: int| 0 <= i < init.len() ==> init[i] == names[i]);
        assert(names[n] == names.last());
        if before.contains(name) {
            let k = choose|k: int| 0 <= k < before.len() && before[k] == name;
            assert(chosen[k] == name);
            let i = choose|i: int|
                0 <= i < init.len() && #[trigger] init[i] == name && keep.drop_last()[i];
            assert(names[i] == name && keep[i]);
        }
        if keep[n] && name == names[n] {
            assert(chosen[before.len() as int] == name);
        }
        if chosen.contains(name) && !before.contains(name) {
            let k = choose|k: int| 0 <= k < chosen.len() && chosen[k] == name;
            assert(k == before.len() || before[k] == name);
            assert(names[n] == name && keep[n]);
        }
        if exists|i: int| 0 <= i < names.len() && #[trigger] names[i] == name && keep[i] {
            let i = choose|i: int| 0 <= i < names.len() && #[trigger] names[i] == name && keep[i];
            if i < n {
                assert(init[i] == name && keep.drop_last()[i]);
                assert(before.contains(name));
            }
        }
    }
}

/// What a filter takes out cannot be linked into another composable: linking fails
/// before anything is registered.
pub proof fn filtered_exports_are_not_linked<C: Linkable>(filtered: Filtered<C>, name: Seq<char>)
    requires
        !filtered.type_view().exports.contains(name),
    ensures
        filtered.plan_view(name).ops == Seq::<OpView>::empty(),
        filtered.plan_view(name).outcome is Err,
{
}

/// What a filter keeps.
proof fn lemma_filter_contains(
    names: Seq<Seq<char>>,
    pred: spec_fn(Seq<char>) -> bool,
    name: Seq<char>,
)
    ensures
        names.filter(pred).contains(name) <==> names.contains(name) && pred(name),
    decreases names.len(),
{
    reveal(Seq::filter);
    if names.len() > 0 {
        let init = names.drop_last();
        lemma_filter_contains(init, pred, name);
        assert(names =~= init.push(names.last()));
        broadcast use vstd::seq_lib::group_seq_properties;
        assert(names.contains(name) <==> init.contains(name) || names.last() == name);
        assert(pred(names.last()) ==> names.filter(pred) =~= init.filter(pred).push(names.last()));
    } else {
        assert(names.filter(pred) =~= Seq::empty());
    }
}

/// What is selected is among the names.
proof fn lemma_select(names: Seq<Seq<char>>, keep: Seq<bool>)
    ensures
        forall|name: Seq<char>| #[trigger]
            select(names, keep).contains(name) ==> names.contains(name),
    decreases names.len(),
{
    if names.len() > 0 {
        lemma_select(names.drop_last(), keep);
        assert forall|name: Seq<char>| #[trigger]
            select(names, keep).contains(name) implies names.contains(name) by {
            if name != names.last() {
                let chosen = select(names, keep);
                let i = choose|i: int| 0 <= i < chosen.len() && chosen[i] == name;
                let init = select(names.drop_last(), keep);
                assert(init[i] == name);
                assert(init.contains(name));
                let j = choose|j: int|
                    0 <= j < names.drop_last().len() && names.drop_last()[j] == name;
                assert(names[j] == name);
            } else {
                assert(names[names.len() - 1] == name);
            }
        }
    }
}

/// What is selected by a predicate's answers is what the predicate filters.
proof fn lemma_select_filter(
    names: Seq<Seq<char>>,
    keep: Seq<bool>,
    pred: spec_fn(Seq<char>) -> bool,
)
    requires
        names.len() <= keep.len(),
        forall|i: int| 0 <= i < names.len() ==> #[trigger] keep[i] == pred(names[i]),
    ensures
        select(names, keep) == names.filter(pred),
    decreases names.len(),
{
    reveal(Seq::filter);
    if names.len() > 0 {
        lemma_select_filter(names.drop_last(), keep, pred);
        assert(keep[names.len() - 1] == pred(names.last()));
    } else {
        assert(names.filter(pred) =~= Seq::empty());
    }
}

/// A further answer does not change what is selected by those before.
proof fn lemma_select_more(names: Seq<Seq<char>>, keep: Seq<bool>, more: bool)
    requires
        names.len() <= keep.len(),
    ensures
        select(names, keep.push(more)) == select(names, keep),
    decreases names.len(),
{
    if names.len() > 0 {
        lemma_select_more(names.drop_last(), keep, more);
    }
}

} // verus!
