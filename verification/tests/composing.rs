use wasm_runtime_composer::{
    Action, Blueprint, Composable, ComposableDescriptor, ComposableType, Composer, Composition,
    CompositionBuilder, CompositionError, ExportFilter, HintMap, InterfaceSet, LinkPlan,
    Linkable, ResolvedImport, Typed,
};

/// A composable that only has a type.
type Part = Typed<()>;

fn set(names: &[&str]) -> InterfaceSet {
    let mut set = InterfaceSet::new();
    for name in names {
        set.insert(name.to_string());
    }
    set
}

fn part(exports: &[&str], imports: &[&str]) -> Part {
    Typed { inner: (), ty: ComposableType::new(set(exports), set(imports)) }
}

fn descriptor(id: &str, exports: &[&str], imports: &[&str]) -> ComposableDescriptor<Part> {
    ComposableDescriptor::new(id.to_string(), part(exports, imports))
}

fn compose(descriptors: Vec<ComposableDescriptor<Part>>) -> Result<Blueprint<Part>, CompositionError> {
    let mut composer = Composer::new();
    for descriptor in descriptors {
        composer.add(descriptor);
    }
    composer.compose()
}

fn links(blueprint: &Blueprint<Part>) -> Vec<(String, String, String)> {
    blueprint
        .resolved_imports
        .iter()
        .map(|link| (link.importer_id.clone(), link.exporter_id.clone(), link.interface.clone()))
        .collect()
}

fn link(importer: &str, exporter: &str, interface: &str) -> (String, String, String) {
    (importer.to_string(), exporter.to_string(), interface.to_string())
}

fn pair(a: &str, b: &str) -> (String, String) {
    (a.to_string(), b.to_string())
}

#[test]
fn an_import_is_provided_by_the_only_exporter() {
    let blueprint = compose(vec![
        descriptor("producer", &["add", "ping"], &[]),
        descriptor("consumer", &["run-add"], &["add", "wasi:io"]),
    ])
    .unwrap();
    assert_eq!(links(&blueprint), vec![link("consumer", "producer", "add")]);
    assert_eq!(blueprint.ty.exports().names(), &vec!["add", "ping", "run-add"]);
    assert_eq!(blueprint.ty.imports().names(), &vec!["wasi:io"]);
    assert_eq!(
        blueprint.providers,
        vec![pair("add", "producer"), pair("ping", "producer"), pair("run-add", "consumer")]
    );
    assert_eq!(blueprint.children.len(), 2);
    assert_eq!(blueprint.children[1].0, "consumer");
    assert_eq!(blueprint.links.len(), 1);
    assert_eq!(blueprint.links[0].importer, 1);
    assert_eq!(blueprint.links[0].exporter, 0);
    assert_eq!(blueprint.links[0].interface, "add");
    assert!(blueprint.outcome.is_ok());
}

#[test]
fn nothing_cannot_be_composed() {
    assert!(matches!(compose(vec![]), Err(CompositionError::Empty)));
    let builder: CompositionBuilder<Part> = CompositionBuilder::default();
    assert!(matches!(builder.build(), Err(CompositionError::Empty)));
    let composer: Composer<Part> = Composer::default();
    assert!(matches!(composer.compose(), Err(CompositionError::Empty)));
}

#[test]
fn the_first_repeated_id_is_refused() {
    let error = compose(vec![
        descriptor("a", &[], &[]),
        descriptor("b", &[], &[]),
        descriptor("b", &[], &[]),
        descriptor("a", &[], &[]),
    ])
    .err()
    .unwrap();
    assert!(matches!(error, CompositionError::DuplicateId(id) if id == "b"));
}

#[test]
fn an_import_hint_must_point_to_a_known_id() {
    let error = compose(vec![
        descriptor("a", &["add"], &[]),
        descriptor("c", &[], &["add"]).with_import_hint("add".to_string(), "x".to_string()),
    ])
    .err()
    .unwrap();
    match error {
        CompositionError::InvalidLinkReference { interface, target_id } => {
            assert_eq!(interface, "add");
            assert_eq!(target_id, "x");
        }
        other => panic!("{other:?}"),
    }
}

#[test]
fn an_export_hint_must_point_to_a_known_id() {
    let mut composer = Composer::new();
    composer
        .add(descriptor("a", &["add"], &[]))
        .with_export_hint("add".to_string(), "x".to_string());
    match composer.compose().err().unwrap() {
        CompositionError::InvalidLinkReference { interface, target_id } => {
            assert_eq!(interface, "add");
            assert_eq!(target_id, "x");
        }
        other => panic!("{other:?}"),
    }
}

#[test]
fn several_exporters_need_an_export_hint() {
    match compose(vec![descriptor("a", &["add"], &[]), descriptor("b", &["add"], &[])])
        .err()
        .unwrap()
    {
        CompositionError::AmbiguousExport { interface, candidates } => {
            assert_eq!(interface, "add");
            assert_eq!(candidates, vec!["a", "b"]);
        }
        other => panic!("{other:?}"),
    }
}

#[test]
fn an_export_hint_must_point_to_an_exporter() {
    let mut composer = Composer::new();
    composer.add(descriptor("a", &["add"], &[]));
    composer.add(descriptor("b", &["add"], &[]));
    composer.add(descriptor("c", &["sub"], &[]));
    composer.with_export_hint("add".to_string(), "c".to_string());
    match composer.compose().err().unwrap() {
        CompositionError::ExportHintInvalid { interface, target_id } => {
            assert_eq!(interface, "add");
            assert_eq!(target_id, "c");
        }
        other => panic!("{other:?}"),
    }
}

#[test]
fn several_exporters_need_an_import_hint() {
    let mut composer = Composer::new();
    composer.add(descriptor("a", &["add"], &[]));
    composer.add(descriptor("b", &["add"], &[]));
    composer.add(descriptor("c", &[], &["add"]));
    composer.with_export_hint("add".to_string(), "b".to_string());
    match composer.compose().err().unwrap() {
        CompositionError::AmbiguousImport { interface, candidates } => {
            assert_eq!(interface, "add");
            assert_eq!(candidates, vec!["a", "b"]);
        }
        other => panic!("{other:?}"),
    }
}

#[test]
fn an_import_hint_must_point_to_an_exporter() {
    let mut composer = Composer::new();
    composer.add(descriptor("a", &["add"], &[]));
    composer.add(descriptor("b", &["add"], &[]));
    composer.add(
        descriptor("c", &[], &["add"]).with_import_hint("add".to_string(), "c".to_string()),
    );
    composer.with_export_hint("add".to_string(), "b".to_string());
    match composer.compose().err().unwrap() {
        CompositionError::ImportHintInvalid { interface, target_id } => {
            assert_eq!(interface, "add");
            assert_eq!(target_id, "c");
        }
        other => panic!("{other:?}"),
    }
}

#[test]
fn hints_choose_between_producers() {
    let mut composer = Composer::new();
    composer.add(
        descriptor("consumer", &["run-add"], &["add"])
            .with_import_hint("add".to_string(), "producer-a".to_string()),
    );
    composer.add(descriptor("producer-a", &["add"], &[]));
    composer.add(descriptor("producer-b", &["add"], &[]));
    composer.with_export_hint("add".to_string(), "producer-b".to_string());
    let blueprint = composer.compose().unwrap();
    assert_eq!(links(&blueprint), vec![link("consumer", "producer-a", "add")]);
    assert_eq!(
        blueprint.providers,
        vec![pair("run-add", "consumer"), pair("add", "producer-b")]
    );
}

#[test]
fn a_hint_to_the_single_exporter_is_in_order() {
    let mut composer = Composer::new();
    composer.add(descriptor("a", &["add"], &[]));
    composer.add(
        descriptor("c", &["run"], &["add"]).with_import_hint("add".to_string(), "a".to_string()),
    );
    composer.with_export_hint("add".to_string(), "a".to_string());
    let blueprint = composer.compose().unwrap();
    assert_eq!(links(&blueprint), vec![link("c", "a", "add")]);
    assert_eq!(blueprint.providers[0], pair("add", "a"));
}

#[test]
fn an_export_hint_past_the_single_exporter_is_refused() {
    let mut composer = Composer::new();
    composer.add(descriptor("a", &["add"], &[]));
    composer.add(descriptor("b", &[], &[]));
    composer.with_export_hint("add".to_string(), "b".to_string());
    match composer.compose().err().unwrap() {
        CompositionError::ExportHintInvalid { interface, target_id } => {
            assert_eq!(interface, "add");
            assert_eq!(target_id, "b");
        }
        other => panic!("{other:?}"),
    }
}

#[test]
fn an_import_hint_past_the_single_exporter_is_refused() {
    let error = compose(vec![
        descriptor("a", &["add"], &[]),
        descriptor("b", &[], &[]),
        descriptor("c", &[], &["add"]).with_import_hint("add".to_string(), "b".to_string()),
    ])
    .err()
    .unwrap();
    match error {
        CompositionError::ImportHintInvalid { interface, target_id } => {
            assert_eq!(interface, "add");
            assert_eq!(target_id, "b");
        }
        other => panic!("{other:?}"),
    }
}

#[test]
fn an_import_that_nobody_exports_is_left() {
    let blueprint =
        compose(vec![descriptor("a", &[], &[]), descriptor("c", &[], &["add"])]).unwrap();
    assert!(blueprint.resolved_imports.is_empty());
    assert_eq!(blueprint.ty.imports().names(), &vec!["add"]);
}

#[test]
fn hints_for_what_nobody_exports_are_refused() {
    // Also where the importer does not import it.
    for imports in [&["add"][..], &[]] {
        let error = compose(vec![
            descriptor("a", &[], &[]),
            descriptor("c", &[], imports).with_import_hint("add".to_string(), "a".to_string()),
        ])
        .err()
        .unwrap();
        match error {
            CompositionError::ImportHintInvalid { interface, target_id } => {
                assert_eq!(interface, "add");
                assert_eq!(target_id, "a");
            }
            other => panic!("{other:?}"),
        }
    }
    let mut composer = Composer::new();
    composer.add(descriptor("a", &["sub"], &[]));
    composer.with_export_hint("add".to_string(), "a".to_string());
    match composer.compose().err().unwrap() {
        CompositionError::ExportHintInvalid { interface, target_id } => {
            assert_eq!(interface, "add");
            assert_eq!(target_id, "a");
        }
        other => panic!("{other:?}"),
    }
}

#[test]
fn a_right_hint_for_what_is_not_imported_is_in_order() {
    let blueprint = compose(vec![
        descriptor("a", &["add"], &[]),
        descriptor("c", &[], &[]).with_import_hint("add".to_string(), "a".to_string()),
    ])
    .unwrap();
    assert!(blueprint.resolved_imports.is_empty());
    assert_eq!(blueprint.ty.imports().len(), 0);
}

#[test]
fn exports_are_settled_before_imports() {
    let error = compose(vec![
        descriptor("a", &["add"], &[]),
        descriptor("b", &["add"], &[]),
        descriptor("c", &[], &["add"]).with_import_hint("add".to_string(), "c".to_string()),
    ])
    .err()
    .unwrap();
    assert!(matches!(error, CompositionError::AmbiguousExport { .. }));
}

/// Two links, and three children to finalize.
fn chain() -> Blueprint<Part> {
    compose(vec![
        descriptor("a", &["x"], &[]),
        descriptor("b", &["y"], &["x"]),
        descriptor("c", &[], &["y"]),
    ])
    .unwrap()
}

fn text(action: &Action) -> String {
    match action {
        Action::Link(k) => format!("link {k}"),
        Action::Finalize(i) => format!("finalize {i}"),
        Action::Stop => "stop".to_string(),
    }
}

#[test]
fn links_are_made_before_children_are_finalized() {
    let blueprint = chain();
    let mut assembly = blueprint.assemble::<&str>();
    let mut done = Vec::new();
    for _ in 0..6 {
        done.push(text(&assembly.action()));
        assembly.report(Ok(()));
    }
    assert_eq!(done, vec!["link 0", "link 1", "finalize 0", "finalize 1", "finalize 2", "stop"]);
    assert_eq!(assembly.finish(Ok(())), Ok(()));
}

#[test]
fn the_first_error_ends_composing() {
    let blueprint = chain();
    for (n, last) in [(0, "link 0"), (1, "link 1"), (3, "finalize 1")] {
        let mut assembly = blueprint.assemble::<&str>();
        for _ in 0..n {
            assembly.report(Ok(()));
        }
        assert_eq!(text(&assembly.action()), last);
        assembly.report(Err("broken"));
        assert_eq!(text(&assembly.action()), "stop");
        assembly.report(Err("later"));
        assembly.report(Ok(()));
        assert_eq!(text(&assembly.action()), "stop");
        assert_eq!(assembly.finish(Ok(())), Err("broken"));
    }
}

#[test]
fn building_finalizes_nothing() {
    let blueprint = chain();
    let mut assembly = blueprint.link_only::<&str>();
    assert_eq!(text(&assembly.action()), "link 0");
    assembly.report(Ok(()));
    assert_eq!(text(&assembly.action()), "link 1");
    assembly.report(Ok(()));
    assert_eq!(text(&assembly.action()), "stop");
    assert_eq!(assembly.finish(Ok(())), Ok(()));
}

#[test]
fn nothing_is_finalized_if_a_link_is_missing() {
    let blueprint = compose(vec![descriptor("a", &["x"], &["x"])]).unwrap();
    let assembly = blueprint.assemble::<&str>();
    assert_eq!(text(&assembly.action()), "stop");
    assert_eq!(assembly.finish(Err("planned")), Err("planned"));
}

#[test]
fn a_composable_cannot_provide_an_import_to_itself() {
    let blueprint = compose(vec![
        descriptor("a", &["x"], &[]),
        descriptor("b", &["y"], &["x", "y", "x2"]),
        descriptor("c", &["x2"], &["x"]),
    ])
    .unwrap();
    assert_eq!(
        links(&blueprint),
        vec![
            link("b", "a", "x"),
            link("b", "b", "y"),
            link("b", "c", "x2"),
            link("c", "a", "x"),
        ]
    );
    assert_eq!(blueprint.links.len(), 1);
    match &blueprint.outcome {
        Err(CompositionError::LinkingError(text)) => assert_eq!(text, "Exporter 'b' not found"),
        other => panic!("{other:?}"),
    }
}

#[test]
fn resolved_imports_come_importer_by_importer() {
    let blueprint = compose(vec![
        descriptor("p", &["x", "y"], &[]),
        descriptor("a", &[], &["x", "y"]),
        descriptor("b", &[], &["y", "x"]),
    ])
    .unwrap();
    assert_eq!(
        links(&blueprint),
        vec![link("a", "p", "x"), link("a", "p", "y"), link("b", "p", "y"), link("b", "p", "x")]
    );
}

#[test]
fn a_builder_resolves_as_a_composer_does() {
    let mut builder = CompositionBuilder::new();
    builder
        .add(descriptor("p", &["x"], &["z"]))
        .add(descriptor("q", &["x"], &[]))
        .with_export_hint("x".to_string(), "q".to_string());
    let blueprint = builder.build().unwrap();
    assert_eq!(blueprint.providers, vec![pair("x", "q")]);
    assert_eq!(blueprint.ty.imports().names(), &vec!["z"]);
}

#[test]
fn the_last_hint_for_an_interface_counts() {
    let mut hints = HintMap::new();
    hints.insert("x".to_string(), "a".to_string());
    hints.insert("y".to_string(), "b".to_string());
    hints.insert("x".to_string(), "c".to_string());
    assert_eq!(hints.entries(), &vec![pair("x", "c"), pair("y", "b")]);
    assert_eq!(hints.get("y"), Some(&"b".to_string()));
    assert_eq!(hints.get("z"), None);
    let descriptor = descriptor("d", &[], &[])
        .with_import_hint("q".to_string(), "r".to_string())
        .with_import_hints(hints);
    assert_eq!(descriptor.id(), "d");
    assert_eq!(descriptor.import_hints().get("x"), Some(&"c".to_string()));
    assert_eq!(descriptor.import_hints().get("q"), None);
}

#[test]
fn exposing_keeps_what_is_listed() {
    let producer = part(&["add", "composer:test/iproducer", "internal-debug"], &["w"]);
    let filtered = producer.exposing(&["add", "composer:test/iproducer", "other"]);
    assert_eq!(filtered.ty().exports().names(), &vec!["add", "composer:test/iproducer"]);
    assert_eq!(filtered.ty().imports().names(), &vec!["w"]);
}

#[test]
fn hiding_removes_what_is_listed() {
    let producer = part(&["add", "internal-debug", "ping"], &["w"]);
    let filtered = producer.hiding(&["internal-debug"]);
    assert_eq!(filtered.ty().exports().names(), &vec!["add", "ping"]);
    assert_eq!(filtered.ty().imports().names(), &vec!["w"]);
    let (inner, ty) = filtered.into_parts();
    assert_eq!(inner.ty().exports().len(), 3);
    assert_eq!(ty.exports().len(), 2);
}

#[test]
fn exports_are_filtered_by_a_predicate() {
    let producer = part(&["a:x", "b:y", "a:z"], &[]);
    let filtered = producer.filter_exports(|name| name.starts_with("a:"));
    assert_eq!(filtered.ty().exports().names(), &vec!["a:x", "a:z"]);
}

#[test]
fn a_hidden_export_provides_nothing() {
    let mut composer = Composer::new();
    composer.add(ComposableDescriptor::new(
        "p".to_string(),
        part(&["add", "debug"], &[]).hiding(&["debug"]),
    ));
    composer.add(ComposableDescriptor::new(
        "c".to_string(),
        part(&[], &["add", "debug"]).hiding(&[]),
    ));
    let blueprint = composer.compose().unwrap();
    assert_eq!(blueprint.resolved_imports.len(), 1);
    assert_eq!(blueprint.ty.exports().names(), &vec!["add"]);
    assert_eq!(blueprint.ty.imports().names(), &vec!["debug"]);
}

#[test]
fn a_composition_reports_its_links() {
    let resolved = ResolvedImport::new("c".to_string(), "p".to_string(), "add".to_string());
    let composition: Composition<u8> = Composition::new(
        vec![],
        vec![pair("add", "gone")],
        ComposableType::default(),
        vec![resolved.clone()],
    );
    assert_eq!(composition.resolved_imports().len(), 1);
    assert_eq!(composition.resolved_imports()[0].interface, "add");
    assert_eq!(composition.ty().exports().len(), 0);
    assert!(matches!(composition.get_func(None, "add"), Err(CompositionError::FuncNotFound)));
    assert!(matches!(composition.get_func(None, "sub"), Err(CompositionError::FuncNotFound)));
    assert!(matches!(composition.route_export("add"), Err(CompositionError::FuncNotFound)));
    let plan = composition.link_export("add");
    assert!(plan.ops.is_empty());
    assert!(matches!(plan.outcome, Err(CompositionError::FuncNotFound)));
    let refused = composition.link_import(LinkPlan { ops: Vec::new(), outcome: Ok(()) });
    match refused.outcome {
        Err(CompositionError::LinkingError(text)) => {
            assert_eq!(text, "this composable does not accept import linking")
        }
        other => panic!("{other:?}"),
    }
    let retyped = composition.with_ty(ComposableType::new(set(&["x"]), InterfaceSet::new()));
    assert!(retyped.ty().exports().contains("x"));
    assert_eq!(retyped.resolved_imports().len(), 1);
}

#[test]
fn the_order_of_composables_does_not_matter() {
    let make = |reversed: bool| {
        let mut descriptors = vec![
            descriptor("p", &["x", "y"], &["z"]),
            descriptor("q", &["x"], &["y"]),
            descriptor("c", &["run"], &["x", "y"])
                .with_import_hint("x".to_string(), "q".to_string()),
        ];
        if reversed {
            descriptors.reverse();
        }
        let mut composer = Composer::new();
        for descriptor in descriptors {
            composer.add(descriptor);
        }
        composer.with_export_hint("x".to_string(), "p".to_string());
        let blueprint = composer.compose().unwrap();
        let mut links = links(&blueprint);
        links.sort();
        let mut providers = blueprint.providers;
        providers.sort();
        (links, providers)
    };
    assert_eq!(make(false), make(true));
}
