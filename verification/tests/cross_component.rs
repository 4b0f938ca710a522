use std::sync::{Arc, Mutex};

use wasm_runtime_composer::proxy::{
    param_handles, proxy_results, release_proxy, resolve_params,
};
use wasm_runtime_composer::vals::{read_values, write_values};
use wasm_runtime_composer::{
    Composable, ComposableComponent, ComposableDescriptor, ComposableLinker, ComposableType,
    Composer, Composition, CompositionError, InterfaceSet, LinkPlan, Registration,
};
use wasmtime::component::{
    Component, Instance, Linker, LinkerInstance, ResourceAny, ResourceDynamic, ResourceTable, Val,
};
use wasmtime::{Config, Engine, Store, StoreContextMut};

const PRODUCER: &str = r#"(component
  (core module $m
    (import "" "new" (func $new (param i32) (result i32)))
    (memory (export "memory") 1)
    (func (export "add") (param i32 i32) (result i32)
      (i32.add (local.get 0) (local.get 1)))
    (func (export "get-pong") (param i32) (result i32)
      (call $new (local.get 0)))
    (func (export "get") (param i32) (result i32) (local.get 0))
    (func (export "get-pong-nested") (param i32) (result i32)
      (i32.store (i32.const 16) (i32.const 1))
      (i32.store (i32.const 20) (call $new (local.get 0)))
      (i32.const 16))
    (func (export "get-pong-res-nested") (param i32 i32) (result i32)
      (if (result i32) (local.get 0) (then (local.get 1)) (else (i32.const -1)))))
  (type $pong' (resource (rep i32)))
  (core func $new (canon resource.new $pong'))
  (core func $rep (canon resource.rep $pong'))
  (core instance $i (instantiate $m (with "" (instance (export "new" (func $new))))))
  (core module $take
    (import "" "rep" (func $rep (param i32) (result i32)))
    (func (export "take") (param i32) (result i32) (call $rep (local.get 0)))
    (func (export "take-nested") (param i32 i32) (result i32)
      (if (result i32) (local.get 0)
        (then (call $rep (local.get 1))) (else (i32.const -1)))))
  (core instance $t (instantiate $take (with "" (instance (export "rep" (func $rep))))))
  (func $add (param "a" s32) (param "b" s32) (result s32) (canon lift (core func $i "add")))
  (func $get-pong (param "v" s32) (result (own $pong')) (canon lift (core func $i "get-pong")))
  (func $get (param "self" (borrow $pong')) (result s32) (canon lift (core func $i "get")))
  (func $get-pong-res (param "p" (own $pong')) (result s32)
    (canon lift (core func $t "take")))
  (func $get-pong-nested (param "v" s32) (result (option (own $pong')))
    (canon lift (core func $i "get-pong-nested") (memory (core memory $i "memory"))))
  (func $get-pong-res-nested (param "p" (option (own $pong'))) (result s32)
    (canon lift (core func $t "take-nested")))
  (component $shim
    (import "import-pong" (type $p (sub resource)))
    (import "a" (func $add (param "a" s32) (param "b" s32) (result s32)))
    (import "b" (func $gp (param "v" s32) (result (own $p))))
    (import "c" (func $g (param "self" (borrow $p)) (result s32)))
    (import "d" (func $gpr (param "p" (own $p)) (result s32)))
    (import "e" (func $gpn (param "v" s32) (result (option (own $p)))))
    (import "f" (func $gprn (param "p" (option (own $p))) (result s32)))
    (export "add" (func $add))
    (export $p2 "pong" (type $p))
    (export "get-pong" (func $gp) (func (param "v" s32) (result (own $p2))))
    (export "[method]pong.get" (func $g) (func (param "self" (borrow $p2)) (result s32)))
    (export "get-pong-res" (func $gpr) (func (param "p" (own $p2)) (result s32)))
    (export "get-pong-nested" (func $gpn)
      (func (param "v" s32) (result (option (own $p2)))))
    (export "get-pong-res-nested" (func $gprn)
      (func (param "p" (option (own $p2))) (result s32))))
  (instance $e (instantiate $shim
    (with "import-pong" (type $pong'))
    (with "a" (func $add)) (with "b" (func $get-pong)) (with "c" (func $get))
    (with "d" (func $get-pong-res)) (with "e" (func $get-pong-nested))
    (with "f" (func $get-pong-res-nested))))
  (export "composer:test/iproducer" (instance $e))
  (export "add" (func $add)))"#;

const CONSUMER: &str = r#"(component
  (import "add" (func $add (param "a" s32) (param "b" s32) (result s32)))
  (import "composer:test/iproducer" (instance $p
    (export "pong" (type $pong (sub resource)))
    (export "get-pong" (func (param "v" s32) (result (own $pong))))
    (export "[method]pong.get" (func (param "self" (borrow $pong)) (result s32)))
    (export "get-pong-res" (func (param "p" (own $pong)) (result s32)))
    (export "get-pong-nested" (func (param "v" s32) (result (option (own $pong)))))
    (export "get-pong-res-nested" (func (param "p" (option (own $pong))) (result s32)))))
  (alias export $p "pong" (type $pong))
  (core module $mem (memory (export "memory") 1))
  (core instance $mem (instantiate $mem))
  (core func $add (canon lower (func $add)))
  (core func $get-pong (canon lower (func $p "get-pong")))
  (core func $get (canon lower (func $p "[method]pong.get")))
  (core func $get-pong-res (canon lower (func $p "get-pong-res")))
  (core func $get-pong-nested
    (canon lower (func $p "get-pong-nested") (memory (core memory $mem "memory"))))
  (core func $get-pong-res-nested (canon lower (func $p "get-pong-res-nested")))
  (core func $drop (canon resource.drop $pong))
  (core module $m
    (import "" "memory" (memory 1))
    (import "" "add" (func $add (param i32 i32) (result i32)))
    (import "" "get-pong" (func $get-pong (param i32) (result i32)))
    (import "" "get" (func $get (param i32) (result i32)))
    (import "" "get-pong-res" (func $get-pong-res (param i32) (result i32)))
    (import "" "get-pong-nested" (func $get-pong-nested (param i32 i32)))
    (import "" "get-pong-res-nested" (func $get-pong-res-nested (param i32 i32) (result i32)))
    (import "" "drop" (func $drop (param i32)))
    (func (export "run-add") (result i32) (call $add (i32.const 20) (i32.const 22)))
    (func (export "run-pong") (result i32) (local $h i32) (local $v i32)
      (local.set $h (call $get-pong (i32.const 42)))
      (local.set $v (call $get (local.get $h)))
      (call $drop (local.get $h))
      (local.get $v))
    (func (export "run-pong-res") (result i32)
      (call $get-pong-res (call $get-pong (i32.const 42))))
    (func (export "run-pong-res-nested") (result i32)
      (call $get-pong-nested (i32.const 42) (i32.const 32))
      (call $get-pong-res-nested
        (i32.load8_u (i32.const 32)) (i32.load (i32.const 36)))))
  (core instance $i (instantiate $m (with "" (instance
    (export "memory" (memory $mem "memory"))
    (export "add" (func $add)) (export "get-pong" (func $get-pong))
    (export "get" (func $get)) (export "get-pong-res" (func $get-pong-res))
    (export "get-pong-nested" (func $get-pong-nested))
    (export "get-pong-res-nested" (func $get-pong-res-nested))
    (export "drop" (func $drop))))))
  (func $run-add (result s32) (canon lift (core func $i "run-add")))
  (func (export "run-pong") (result s32) (canon lift (core func $i "run-pong")))
  (func (export "run-pong-res") (result s32) (canon lift (core func $i "run-pong-res")))
  (func (export "run-pong-res-nested") (result s32)
    (canon lift (core func $i "run-pong-res-nested")))
  (instance $iconsumer (export "run-add" (func $run-add)))
  (export "composer:test/iconsumer" (instance $iconsumer))
  (export "run-add" (func $run-add)))"#;

struct State {
    table: ResourceTable,
}

/// A running component: its store and its instance.
#[derive(Clone)]
struct Running(Arc<Mutex<(Store<State>, Instance)>>);

/// The proxy number of a borrowed handle.
fn borrowed_number(
    handle: ResourceAny,
    store: &mut StoreContextMut<'_, State>,
) -> Option<u32> {
    if handle.owned() {
        return None;
    }
    ResourceDynamic::try_from_resource_any(handle, store).ok().map(|dynamic| dynamic.rep())
}

/// Makes the definitions of a plan in `linker`, where `exporter` runs the functions.
fn register(
    linker: &mut LinkerInstance<'_, State>,
    definitions: &mut std::vec::IntoIter<Registration>,
    exporter: &Running,
) {
    while let Some(definition) = definitions.next() {
        match definition {
            Registration::Enter { name } => {
                let mut inner = linker.instance(&name).unwrap();
                register(&mut inner, definitions, exporter);
            }
            Registration::Leave => return,
            Registration::Resource { name, host, .. } => {
                linker
                    .resource(&name, host, |mut store: StoreContextMut<'_, State>, rep| {
                        release_proxy(&mut store.data_mut().table, rep);
                        Ok(())
                    })
                    .unwrap();
            }
            Registration::Func { name, index, ctx, .. } => {
                let exporter = exporter.clone();
                linker
                    .func_new(
                        &name,
                        move |mut store: StoreContextMut<'_, State>, _ty, params, results| {
                            let params = read_values(params.to_vec());
                            assert!(ctx.resource.accepts_params(&params));
                            let (params, handles) = param_handles(&ctx.resource, params);
                            let borrowed = handles
                                .iter()
                                .map(|handle| borrowed_number(*handle, &mut store))
                                .collect();
                            let table = std::mem::take(&mut store.data_mut().table);
                            let params = resolve_params(
                                &ctx.resource,
                                params,
                                &borrowed,
                                &mut store,
                                &table,
                            );
                            let params = write_values(params);
                            {
                                let mut running = exporter.0.lock().unwrap();
                                let (producer, instance) = &mut *running;
                                let func = instance.get_func(&mut *producer, &index).unwrap();
                                func.call(&mut *producer, &params, results)?;
                                func.post_return(&mut *producer)?;
                            }
                            let mut values = read_values(results.to_vec());
                            assert!(ctx.resource.accepts_results(&values));
                            let map = ctx.resource_map.as_ref().unwrap();
                            let (table, outcome) =
                                proxy_results(&ctx.resource, map, &mut values, &mut store, table);
                            store.data_mut().table = table;
                            assert!(outcome.is_ok());
                            for (result, val) in results.iter_mut().zip(write_values(values)) {
                                *result = val;
                            }
                            Ok(())
                        },
                    )
                    .unwrap();
            }
        }
    }
}

fn link(linker: &mut Linker<State>, plan: LinkPlan, exporter: &Running) {
    assert!(plan.outcome.is_ok());
    let mut tracker = ComposableLinker::new();
    let mut definitions = Vec::new();
    for op in plan.ops {
        let definition = tracker.prepare(op);
        tracker.record(&definition);
        definitions.push(definition);
    }
    register(&mut linker.root(), &mut definitions.into_iter(), exporter);
}

fn engine() -> Engine {
    let mut config = Config::new();
    config.wasm_component_model(true);
    config.memory_reservation(1 << 16);
    config.memory_guard_size(1 << 16);
    Engine::new(&config).unwrap()
}

/// Composes the producer and the consumer and runs them.
fn make_composition() -> Composition<Running> {
    let engine = engine();
    let mut composer = Composer::new();
    composer.add(ComposableDescriptor::new(
        "producer".to_string(),
        ComposableComponent::new(Component::new(&engine, PRODUCER).unwrap()),
    ));
    composer.add(ComposableDescriptor::new(
        "consumer".to_string(),
        ComposableComponent::new(Component::new(&engine, CONSUMER).unwrap()),
    ));
    let blueprint = composer.compose().unwrap();
    assert!(blueprint.outcome.is_ok());
    assert_eq!(blueprint.links.len(), 2);

    let mut linkers: Vec<Linker<State>> = Vec::new();
    for _ in &blueprint.children {
        linkers.push(Linker::new(&engine));
    }
    let mut running: Vec<Running> = Vec::new();
    for (i, (_, child)) in blueprint.children.iter().enumerate() {
        for step in blueprint.links.iter().filter(|step| step.importer == i) {
            link(&mut linkers[i], blueprint.link_plan(step), &running[step.exporter]);
        }
        let mut store = Store::new(&engine, State { table: ResourceTable::new() });
        let instance = linkers[i].instantiate(&mut store, child.component()).unwrap();
        running.push(Running(Arc::new(Mutex::new((store, instance)))));
    }
    let children = blueprint
        .children
        .into_iter()
        .zip(running)
        .map(|((id, child), running)| (id, child.into_composition(running)))
        .collect();
    Composition::new(children, blueprint.providers, blueprint.ty, blueprint.resolved_imports)
}

fn call(composition: &Composition<Running>, interface: Option<&str>, func: &str) -> Val {
    let (target, running) = composition.get_func(interface, func).unwrap();
    assert!(!target.is_async);
    let mut running = running.0.lock().unwrap();
    let (store, instance) = &mut *running;
    let func = instance.get_func(&mut *store, &target.index).unwrap();
    let mut results = vec![Val::S32(0)];
    func.call(&mut *store, &[], &mut results).unwrap();
    func.post_return(&mut *store).unwrap();
    results.remove(0)
}

#[test]
fn a_function_of_another_component_is_called() {
    let composition = make_composition();
    assert_eq!(call(&composition, None, "run-add"), Val::S32(42));
}

#[test]
fn a_function_of_an_exported_interface_is_called() {
    let composition = make_composition();
    assert_eq!(call(&composition, Some("composer:test/iconsumer"), "run-add"), Val::S32(42));
}

#[test]
fn a_resource_is_used_through_a_method() {
    let composition = make_composition();
    assert_eq!(call(&composition, None, "run-pong"), Val::S32(42));
    // The proxy is gone once the consumer has dropped its handle.
    let (_, consumer) = composition.get_func(None, "run-pong").unwrap();
    assert!(consumer.0.lock().unwrap().0.data().table.is_empty());
}

#[test]
fn a_resource_is_passed_back() {
    let composition = make_composition();
    assert_eq!(call(&composition, None, "run-pong-res"), Val::S32(42));
}

#[test]
fn a_resource_inside_another_value_is_passed_back() {
    let composition = make_composition();
    assert_eq!(call(&composition, None, "run-pong-res-nested"), Val::S32(42));
}

#[test]
fn a_composition_exports_what_its_children_export() {
    let composition = make_composition();
    assert_eq!(
        composition.ty().exports().names(),
        &vec![
            "composer:test/iproducer",
            "add",
            "composer:test/iconsumer",
            "run-add",
            "run-pong",
            "run-pong-res",
            "run-pong-res-nested",
        ]
    );
    assert_eq!(composition.ty().imports().len(), 0);
    assert_eq!(composition.resolved_imports().len(), 2);
    assert!(composition.get_func(None, "composer:test/iconsumer").is_err());
    assert!(composition.get_func(Some("composer:test/iproducer"), "add").is_ok());
    assert!(matches!(
        composition.get_func(Some("run-add"), "run-add"),
        Err(CompositionError::FuncNotFound)
    ));
}

#[test]
fn a_nested_composition_is_asked_in_turn() {
    let inner = make_composition();
    let mut exports = InterfaceSet::new();
    exports.insert("run-add".to_string());
    exports.insert("add".to_string());
    let ty = ComposableType::new(exports, InterfaceSet::new());
    let outer = Composition::new(
        vec![("inner".to_string(), inner)],
        vec![
            ("run-add".to_string(), "inner".to_string()),
            ("add".to_string(), "inner".to_string()),
        ],
        ty,
        vec![],
    );
    assert_eq!(call(&outer, None, "run-add"), Val::S32(42));
    assert!(matches!(outer.get_func(None, "run-pong"), Err(CompositionError::FuncNotFound)));
    let (plan, _) = outer.route_export("add").unwrap();
    assert!(plan.outcome.is_ok());
    assert_eq!(plan.ops.len(), 1);
    assert!(outer.route_export("run-pong").is_err());

    // What is filtered out of the outer composition is not asked for inside.
    let mut exports = InterfaceSet::new();
    exports.insert("add".to_string());
    let filtered = outer.with_ty(ComposableType::new(exports, InterfaceSet::new()));
    assert!(matches!(filtered.get_func(None, "run-add"), Err(CompositionError::FuncNotFound)));
    assert!(matches!(filtered.route_export("run-add"), Err(CompositionError::FuncNotFound)));
    assert!(filtered.get_func(None, "add").is_ok());
}
