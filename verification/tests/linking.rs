use wasm_runtime_composer::describe::ItemType;
use wasm_runtime_composer::link::link_export_item;
use wasm_runtime_composer::table_link::{ProxyScheme, TableOp, TablePlanner};
use wasm_runtime_composer::{
    Composable, ComposableComponent, ComposableInstance, ComposableInstanceCore,
    ComposableLinker, CompositionError, ExportFilter, FuncSignature, LinkOp, Linkable,
    Registration,
};
use wasmtime::component::{Component, ResourceType};
use wasmtime::{Config, Engine};

/// A component with a function, a core module and an instance, in which the functions
/// come before the second resource type.
const SHAPES: &str = r#"(component
  (import "host" (func))
  (core module $empty)
  (core module $m
    (func (export "f") (param i32) (result i32) (local.get 0))
    (func (export "g") (param i32)))
  (core instance $i (instantiate $m))
  (type $r' (resource (rep i32)))
  (type $s' (resource (rep i32)))
  (func $f (param "v" s32) (result s32) (canon lift (core func $i "f")))
  (func $take (param "r" (own $r')) (canon lift (core func $i "g")))
  (component $shim
    (import "r" (type $r (sub resource)))
    (import "s" (type $s (sub resource)))
    (import "f" (func $f (param "v" s32) (result s32)))
    (import "take" (func $take (param "r" (own $r))))
    (export $r2 "r" (type $r))
    (export "take" (func $take) (func (param "r" (own $r2))))
    (export $s2 "s" (type $s))
    (export "f" (func $f)))
  (instance $e (instantiate $shim
    (with "r" (type $r')) (with "s" (type $s'))
    (with "f" (func $f)) (with "take" (func $take))))
  (instance $plain (export "f" (func $f)))
  (export "api" (instance $e))
  (export "plain" (instance $plain))
  (export "f" (func $f))
  (export "m" (core module $empty))
  (type $t (record (field "x" u8)))
  (export "t" (type $t)))"#;

fn engine() -> Engine {
    let mut config = Config::new();
    config.wasm_component_model(true);
    config.wasm_component_model_async(true);
    Engine::new(&config).unwrap()
}

fn shapes() -> ComposableInstanceCore {
    ComposableInstanceCore::new(Component::new(&engine(), SHAPES).unwrap())
}

fn outline(ops: &[LinkOp]) -> Vec<String> {
    ops.iter()
        .map(|op| match op {
            LinkOp::Func { name, concurrent, .. } => format!("func {name} {concurrent}"),
            LinkOp::Resource { name, .. } => format!("resource {name}"),
            LinkOp::Enter { name } => format!("enter {name}"),
            LinkOp::Leave => "leave".to_string(),
        })
        .collect()
}

fn message(outcome: Result<(), CompositionError>) -> String {
    match outcome {
        Err(CompositionError::LinkingError(text)) => text,
        other => panic!("{other:?}"),
    }
}

#[test]
fn the_exports_and_imports_of_a_component_are_read() {
    let core = shapes();
    assert_eq!(core.ty().exports().names(), &vec!["api", "plain", "f", "m", "t"]);
    assert_eq!(core.ty().imports().names(), &vec!["host"]);
}

#[test]
fn an_instance_has_no_imports_left() {
    let component = Component::new(&engine(), SHAPES).unwrap();
    let instance = ComposableInstance::from_existing(component.clone());
    assert_eq!(instance.ty().imports().len(), 0);
    assert_eq!(instance.ty().exports().len(), 5);
    let plan = instance.link_import(instance.link_export("f"));
    assert_eq!(message(plan.outcome), "this composable does not accept import linking");
    assert!(plan.ops.is_empty());
    // The composition made of it keeps what it reports.
    let composition = instance.into_composition(());
    assert_eq!(composition.ty().imports().len(), 0);
    assert_eq!(composition.ty().exports().names(), &vec!["api", "plain", "f", "m", "t"]);
    assert!(composition.get_func(None, "f").is_ok());

    let uninstantiated = ComposableComponent::new(component);
    assert_eq!(uninstantiated.ty().imports().names(), &vec!["host"]);
    let plan = uninstantiated.link_import(uninstantiated.link_export("f"));
    assert!(plan.outcome.is_ok());
    assert_eq!(outline(&plan.ops), vec!["func f false"]);
    assert_eq!(uninstantiated.into_composition(()).ty().imports().names(), &vec!["host"]);
}

#[test]
fn a_filtered_out_export_is_not_linked() {
    let component = Component::new(&engine(), SHAPES).unwrap();
    let filtered = ComposableComponent::new(component).hiding(&["f"]);
    let plan = filtered.link_export("f");
    assert!(plan.ops.is_empty());
    assert_eq!(message(plan.outcome), "Export 'f' not found");
    let plan = filtered.link_export("api");
    assert!(plan.outcome.is_ok());
    assert_eq!(plan.ops.len(), 6);
}

#[test]
fn a_filtered_out_function_is_not_found() {
    let component = Component::new(&engine(), SHAPES).unwrap();
    let (inner, ty) = ComposableComponent::new(component).exposing(&["api"]).into_parts();
    let composition = inner.into_composition(7).with_ty(ty);
    assert!(matches!(composition.get_func(None, "f"), Err(CompositionError::FuncNotFound)));
    assert!(matches!(
        composition.get_func(Some("plain"), "f"),
        Err(CompositionError::FuncNotFound)
    ));
    assert_eq!(*composition.get_func(Some("api"), "f").unwrap().1, 7);
    let plan = composition.link_export("f");
    assert!(plan.ops.is_empty());
    assert_eq!(message(plan.outcome), "Export 'f' not found");
    assert!(composition.link_export("api").outcome.is_ok());
}

fn unsupported(outcome: Result<(), CompositionError>) -> String {
    match outcome {
        Err(CompositionError::UnsupportedLinkType { interface }) => interface,
        other => panic!("{other:?}"),
    }
}

#[test]
fn a_function_is_linked_under_its_index() {
    let core = shapes();
    let plan = core.link_export("f");
    assert!(plan.outcome.is_ok());
    assert_eq!(outline(&plan.ops), vec!["func f false"]);
    match &plan.ops[0] {
        LinkOp::Func { ctx, .. } => {
            assert!(ctx.resource.leaves_params());
            assert!(ctx.resource.leaves_results());
            assert!(ctx.resource_map.is_none());
        }
        _ => panic!(),
    }
}

#[test]
fn the_resources_of_an_instance_come_first() {
    let plan = shapes().link_export("api");
    assert!(plan.outcome.is_ok());
    assert_eq!(
        outline(&plan.ops),
        vec!["enter api", "resource r", "resource s", "func take false", "func f false", "leave"]
    );
    match &plan.ops[3] {
        LinkOp::Func { ctx, .. } => {
            assert!(!ctx.resource.leaves_params());
            assert!(ctx.resource.leaves_results());
        }
        _ => panic!(),
    }
}

#[test]
fn types_are_passed_over() {
    let plan = shapes().link_export("t");
    assert!(plan.outcome.is_ok());
    assert!(plan.ops.is_empty());
}

#[test]
fn modules_are_not_supported() {
    let plan = shapes().link_export("m");
    assert!(plan.ops.is_empty());
    assert_eq!(unsupported(plan.outcome), "m");
    let plan = shapes().link_export_shared("m", ProxyScheme::PerInstance, 0);
    assert!(plan.ops.is_empty());
    assert_eq!(unsupported(plan.outcome), "m");
}

#[test]
fn a_missing_export_is_refused() {
    let plan = shapes().link_export("none");
    assert!(plan.ops.is_empty());
    assert_eq!(message(plan.outcome), "Export 'none' not found");
    let plan = shapes().link_export_shared("none", ProxyScheme::PerInstance, 3);
    assert_eq!(message(plan.outcome), "Export 'none' not found");
    assert_eq!(plan.next, 3);
}

#[test]
fn functions_are_found_by_name() {
    let core = shapes();
    let top = core.get_func(None, "f").unwrap();
    assert!(!top.is_async);
    let inner = core.get_func(Some("api"), "f").unwrap();
    assert!(!inner.is_async);
    for (interface, func) in [
        (None, "api"),
        (None, "none"),
        (Some("f"), "f"),
        (Some("none"), "f"),
        (Some("api"), "r"),
        (Some("api"), "none"),
    ] {
        assert!(matches!(core.get_func(interface, func), Err(CompositionError::FuncNotFound)));
    }
}

#[test]
fn async_functions_are_told_apart() {
    let text = r#"(component
      (core module $m (func (export "f")))
      (core instance $i (instantiate $m))
      (core module $n
        (func (export "f") (result i32) (i32.const 0))
        (func (export "cb") (param i32 i32 i32) (result i32) (i32.const 0)))
      (core instance $j (instantiate $n))
      (func (export "plain") (canon lift (core func $i "f")))
      (func (export "waiting") async
        (canon lift (core func $j "f") async (callback (core func $j "cb")))))"#;
    let component = match Component::new(&engine(), text) {
        Ok(component) => component,
        Err(e) => panic!("{e:?}"),
    };
    let core = ComposableInstanceCore::new(component);
    assert!(!core.get_func(None, "plain").unwrap().is_async);
    assert!(core.get_func(None, "waiting").unwrap().is_async);
    assert_eq!(outline(&core.link_export("waiting").ops), vec!["func waiting true"]);
}

#[test]
fn a_linker_numbers_resources_and_hands_them_to_functions() {
    let core = shapes();
    let mut linker = ComposableLinker::new();
    let mut made = Vec::new();
    for name in ["api", "f", "api"] {
        for op in core.link_export(name).ops {
            let registration = linker.prepare(op);
            linker.record(&registration);
            made.push(registration);
        }
    }
    let mut ids = Vec::new();
    let mut maps = Vec::new();
    for registration in &made {
        match registration {
            Registration::Resource { ty_id, host, .. } => {
                assert!(*host == ResourceType::host_dynamic(*ty_id));
                ids.push(*ty_id);
            }
            Registration::Func { ctx, .. } => {
                let map = ctx.resource_map.as_ref().unwrap();
                maps.push(map.iter().map(|(_, id)| *id).collect::<Vec<u32>>());
            }
            _ => {}
        }
    }
    assert_eq!(ids, vec![0, 1, 2, 3]);
    assert_eq!(
        maps,
        vec![vec![0, 1], vec![0, 1], vec![], vec![2, 3], vec![2, 3]]
    );
}

#[test]
fn a_failed_registration_uses_up_its_number() {
    let core = shapes();
    let mut linker = ComposableLinker::new();
    let mut ops = core.link_export("api").ops.into_iter();
    let enter = linker.prepare(ops.next().unwrap());
    linker.record(&enter);
    // The registration of the first resource type fails.
    let _ = linker.prepare(ops.next().unwrap());
    linker.abandon();
    for op in core.link_export("api").ops {
        let registration = linker.prepare(op);
        if let Registration::Resource { name, ty_id, .. } = &registration {
            assert_eq!(*ty_id, if name == "r" { 1 } else { 2 });
        }
        if let Registration::Func { ctx, .. } = &registration {
            assert_eq!(ctx.resource_map.as_ref().unwrap().len(), 2);
        }
        linker.record(&registration);
    }
}

fn table_outline(ops: &[TableOp]) -> Vec<String> {
    ops.iter()
        .map(|op| match op {
            TableOp::Func { name, proxy, .. } => format!("func {name} {proxy:?}"),
            TableOp::Resource { name, host, ty_id } => {
                assert!(*host == ResourceType::host_dynamic(*ty_id));
                format!("resource {name} {ty_id}")
            }
            TableOp::Enter { name } => format!("enter {name}"),
            TableOp::Leave => "leave".to_string(),
        })
        .collect()
}

#[test]
fn the_exports_of_an_instance_share_a_proxy() {
    let core = shapes();
    let plan = core.link_export_shared("api", ProxyScheme::PerInstance, 7);
    assert!(plan.outcome.is_ok());
    assert_eq!(plan.next, 8);
    assert_eq!(
        table_outline(&plan.ops),
        vec![
            "enter api",
            "resource r 7",
            "func take Some(7)",
            "resource s 7",
            "func f Some(7)",
            "leave"
        ]
    );
    let plan = core.link_export_shared("api", ProxyScheme::Shared(5), 7);
    assert_eq!(plan.next, 7);
    assert_eq!(table_outline(&plan.ops)[2], "func take Some(5)");
    let plan = core.link_export_shared("plain", ProxyScheme::PerInstance, 7);
    assert_eq!(plan.next, 7);
    assert_eq!(table_outline(&plan.ops), vec!["enter plain", "func f None", "leave"]);
    let plan = core.link_export_shared("api", ProxyScheme::PerInstance, u32::MAX);
    assert_eq!(plan.next, 0);
}

#[test]
fn a_resource_outside_an_instance_has_no_proxy() {
    let text = r#"(component
      (type $r' (resource (rep i32)))
      (export "r" (type $r')))"#;
    let core = ComposableInstanceCore::new(Component::new(&engine(), text).unwrap());
    assert_eq!(
        message(core.link_export_shared("r", ProxyScheme::PerInstance, 0).outcome),
        "Resource 'r' has no proxy table (should be created by parent instance)"
    );
    assert_eq!(
        message(core.link_export_shared("r", ProxyScheme::Shared(1), 0).outcome),
        "Resource 'r' has no proxy type ID (should be set by parent instance)"
    );
    let plan = core.link_export("r");
    assert!(plan.outcome.is_ok());
    assert_eq!(outline(&plan.ops), vec!["resource r"]);
}

fn unit_function() -> ItemType {
    ItemType::Func(FuncSignature { is_async: false, params: vec![], results: vec![] })
}

fn plan(item: &ItemType) -> (Vec<String>, Result<(), CompositionError>) {
    let component = Component::new(&engine(), SHAPES).unwrap();
    let mut ops = Vec::new();
    let outcome = link_export_item(&component, None, "item", item, &mut ops);
    (outline(&ops), outcome)
}

#[test]
fn a_component_stands_for_its_imports() {
    let item = ItemType::Component(vec![
        ("f".to_string(), unit_function()),
        ("x".to_string(), ItemType::Resource(ResourceType::host_dynamic(1))),
    ]);
    let (ops, outcome) = plan(&item);
    assert!(outcome.is_ok());
    assert_eq!(ops, vec!["func f false", "resource x"]);
}

#[test]
fn linking_stops_at_the_first_failure() {
    let item = ItemType::Component(vec![
        ("f".to_string(), unit_function()),
        ("gone".to_string(), unit_function()),
        ("plain".to_string(), unit_function()),
    ]);
    let (ops, outcome) = plan(&item);
    assert_eq!(ops, vec!["func f false"]);
    assert_eq!(message(outcome), "Export index for 'gone' not found in component");

    let (ops, outcome) = plan(&ItemType::Instance(vec![]));
    assert!(ops.is_empty());
    assert_eq!(message(outcome), "Export index for instance 'item' not found in component");

    let inner = ItemType::Instance(vec![
        ("gone".to_string(), unit_function()),
        ("r".to_string(), ItemType::Resource(ResourceType::host_dynamic(1))),
    ]);
    let (ops, outcome) = plan(&ItemType::Component(vec![("api".to_string(), inner)]));
    assert_eq!(ops, vec!["enter api", "resource r"]);
    assert_eq!(message(outcome), "Export index for 'gone' not found in component");
}

#[test]
fn core_functions_are_not_supported() {
    let (ops, outcome) = plan(&ItemType::CoreFunc);
    assert!(ops.is_empty());
    assert_eq!(unsupported(outcome), "item");
    let component = Component::new(&engine(), SHAPES).unwrap();
    let mut planner = TablePlanner::new(ProxyScheme::PerInstance, 0);
    let outcome = planner.link_export_item(&component, None, "c", &ItemType::CoreFunc, None);
    assert_eq!(unsupported(outcome), "c");
}

#[test]
fn a_table_plan_of_a_component_has_no_proxy() {
    let component = Component::new(&engine(), SHAPES).unwrap();
    let mut planner = TablePlanner::new(ProxyScheme::PerInstance, 0);
    let item = ItemType::Component(vec![("f".to_string(), unit_function())]);
    let outcome = planner.link_export_item(&component, None, "c", &item, Some(9));
    let plan = planner.finish(outcome);
    assert!(plan.outcome.is_ok());
    assert_eq!(table_outline(&plan.ops), vec!["func f None"]);
}
