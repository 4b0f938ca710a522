use wasm_runtime_composer::compile::build_val_navigator;
use wasm_runtime_composer::describe::{read_item, read_type, ItemType};
use wasm_runtime_composer::mapper::{build_link_context, build_resource_mapper};
use wasm_runtime_composer::proxy::{
    after_call, param_handles, proxy_results, registered_type, release_proxy, resolve_handle,
    resolve_params, resolve_params_by,
};
use wasm_runtime_composer::proxy_table::holds_resource;
use wasm_runtime_composer::vals::{read_values, write_values};
use wasm_runtime_composer::{
    FuncSignature, LinkContext, ResourceProxyTable, ValMapper, Value, ValueType, VisitError,
};
use wasmtime::component::types::ComponentItem;
use wasmtime::component::{
    Component, Resource, ResourceAny, ResourceDynamic, ResourceTable, ResourceType, Val,
};
use wasmtime::{AsContextMut, Config, Engine, Store};

fn engine() -> Engine {
    let mut config = Config::new();
    config.wasm_component_model(true);
    Engine::new(&config).unwrap()
}

fn store() -> Store<()> {
    Store::new(&engine(), ())
}

/// A handle of `store` to the host-defined resource `rep` of type `ty`.
fn handle(store: &mut Store<()>, rep: u32, ty: u32) -> ResourceAny {
    ResourceDynamic::new_own(rep, ty).try_into_resource_any(store).unwrap()
}

/// The number of the host-defined resource that a handle stands for.
fn rep(store: &mut Store<()>, handle: ResourceAny) -> u32 {
    ResourceDynamic::try_from_resource_any(handle, store).unwrap().rep()
}

fn resource(value: &Value) -> ResourceAny {
    match value {
        Value::Resource(handle) => *handle,
        _ => panic!(),
    }
}

fn own(ty: u32) -> ValueType {
    ValueType::Own(ResourceType::host_dynamic(ty))
}

fn plain(n: u32) -> Value {
    Value::Plain(Val::U32(n))
}

fn number(value: &Value) -> u32 {
    match value {
        Value::Plain(Val::U32(n)) => *n,
        _ => panic!(),
    }
}

fn mapper(params: Vec<ValueType>, results: Vec<ValueType>) -> ValMapper {
    build_resource_mapper(&FuncSignature { is_async: false, params, results })
}

#[test]
fn types_without_resources_need_no_navigator() {
    assert!(build_val_navigator(&ValueType::Other).is_none());
    assert!(build_val_navigator(&ValueType::List(Box::new(ValueType::Other))).is_none());
    let nested = ValueType::Record(vec![
        ValueType::Other,
        ValueType::Option(Box::new(ValueType::Tuple(vec![]))),
        ValueType::Result(None, Some(Box::new(ValueType::Other))),
        ValueType::Variant(vec![("a".to_string(), None)]),
    ]);
    assert!(build_val_navigator(&nested).is_none());
    assert!(build_val_navigator(&ValueType::List(Box::new(own(0)))).is_some());
    let none = mapper(vec![ValueType::Other], vec![nested]);
    assert!(none.leaves_params() && none.leaves_results());
    let context = LinkContext::noop();
    assert!(context.resource.leaves_params() && context.resource.leaves_results());
}

#[test]
fn the_types_of_a_component_are_read() {
    let text = r#"(component
      (type $rec' (record (field "x" char)))
      (import "rec" (type $rec (eq $rec')))
      (type $var' (variant (case "one" (list u8)) (case "two")))
      (import "var" (type $var (eq $var')))
      (import "f" (func
        (param "a" (list (option u8)))
        (param "b" (tuple s32 (result string (error $rec))))
        (param "c" $var)
        (result (option (result u8))))))"#;
    let component = Component::new(&engine(), text).unwrap();
    let ty = component.component_type();
    let mut imports = ty.imports(component.engine());
    let func = match imports.find(|(name, _)| *name == "f").unwrap().1 {
        ComponentItem::ComponentFunc(func) => func,
        _ => panic!(),
    };
    let params: Vec<ValueType> = func.params().map(|(_, ty)| read_type(ty)).collect();
    assert_eq!(params.len(), 3);
    match &params[0] {
        ValueType::List(element) => match &**element {
            ValueType::Option(payload) => assert!(matches!(**payload, ValueType::Other)),
            _ => panic!(),
        },
        _ => panic!(),
    }
    match &params[1] {
        ValueType::Tuple(parts) => {
            assert_eq!(parts.len(), 2);
            assert!(matches!(parts[0], ValueType::Other));
            match &parts[1] {
                ValueType::Result(Some(ok), Some(err)) => {
                    assert!(matches!(**ok, ValueType::Other));
                    match &**err {
                        ValueType::Record(fields) => {
                            assert!(matches!(fields[..], [ValueType::Other]))
                        }
                        _ => panic!(),
                    }
                }
                _ => panic!(),
            }
        }
        _ => panic!(),
    }
    match &params[2] {
        ValueType::Variant(cases) => {
            assert_eq!(cases[0].0, "one");
            assert!(matches!(cases[0].1, Some(ValueType::List(_))));
            assert_eq!(cases[1].0, "two");
            assert!(cases[1].1.is_none());
        }
        _ => panic!(),
    }
    let results: Vec<ValueType> = func.results().map(read_type).collect();
    match &results[0] {
        ValueType::Option(payload) => {
            assert!(matches!(**payload, ValueType::Result(Some(_), None)))
        }
        _ => panic!(),
    }
}

#[test]
fn results_become_proxies_and_arguments_come_back() {
    let mut producer = store();
    let mut consumer = store();
    let mapper = mapper(vec![own(9)], vec![own(1)]);
    let map = vec![(ResourceType::host_dynamic(1), 9)];
    let original = handle(&mut producer, 77, 1);

    let mut results = vec![Value::Resource(original)];
    assert!(mapper.accepts_results(&results));
    let (table, outcome) = proxy_results(
        &mapper,
        &map,
        &mut results,
        &mut consumer.as_context_mut(),
        ResourceTable::new(),
    );
    assert!(outcome.is_ok());
    let proxy = resource(&results[0]);
    assert!(proxy != original);
    assert!(proxy.ty() == ResourceType::host_dynamic(9));
    assert!(proxy.owned());

    let params = vec![Value::Resource(proxy)];
    assert!(mapper.accepts_params(&params));
    // The handle is owned, so that the store is asked, and not what is handed in.
    let mut context = consumer.as_context_mut();
    let params = resolve_params(&mapper, params, &vec![Some(1000)], &mut context, &table);
    assert!(resource(&params[0]) == original);
    assert_eq!(rep(&mut producer, original), 77);
}

#[test]
fn a_released_proxy_stands_for_nothing() {
    let mut consumer = store();
    let original = handle(&mut store(), 5, 1);
    let mut table = ResourceTable::new();
    let id = table.push(original).unwrap().rep();
    let other = table.push(handle(&mut store(), 6, 1)).unwrap().rep();
    let argument = handle(&mut consumer, id, 9);
    assert!(resolve_handle(&table, argument, Some(id)) == original);
    assert!(resolve_handle(&table, argument, None) == argument);
    release_proxy(&mut table, id);
    assert!(resolve_handle(&table, argument, Some(id)) == argument);
    assert!(table.get(&Resource::<ResourceAny>::new_borrow(other)).is_ok());
    release_proxy(&mut table, id);
    release_proxy(&mut table, 1000);
}

#[test]
fn releasing_a_proxy_makes_room() {
    let original = handle(&mut store(), 5, 1);
    let mut table = ResourceTable::new();
    table.set_max_capacity(1);
    let id = table.push(original).unwrap().rep();
    assert!(table.push(original).is_err());
    release_proxy(&mut table, id);
    assert!(table.push(original).is_ok());
}

#[test]
fn results_are_proxied_after_a_call_that_succeeded() {
    let mut consumer = store();
    let original = handle(&mut store(), 5, 1);
    let mapper = mapper(vec![], vec![own(1)]);
    let map = vec![(ResourceType::host_dynamic(1), 9)];

    let mut results = vec![Value::Resource(original)];
    let (table, outcome) = after_call(
        Err(wasmtime::Error::msg("trap")),
        &mapper,
        &map,
        &mut results,
        &mut consumer.as_context_mut(),
        ResourceTable::new(),
    );
    match outcome {
        Err(VisitError::Runtime(e)) => assert_eq!(e.to_string(), "trap"),
        _ => panic!(),
    }
    assert!(table.is_empty());
    assert!(resource(&results[0]) == original);

    let (table, outcome) = after_call(
        Ok(()),
        &mapper,
        &map,
        &mut results,
        &mut consumer.as_context_mut(),
        table,
    );
    assert!(outcome.is_ok());
    assert!(!table.is_empty());
    assert!(resource(&results[0]).ty() == ResourceType::host_dynamic(9));
}

#[test]
fn a_proxy_table_is_filled_after_a_call_that_succeeded() {
    let mut consumer = store();
    let original = handle(&mut store(), 5, 1);
    let mut table = ResourceProxyTable::new(4);
    let mut results = vec![Value::Resource(original)];
    let failed = Err(wasmtime::Error::msg("trap"));
    let outcome = table.after_call(failed, &mut consumer.as_context_mut(), &mut results);
    assert_eq!(outcome.err().unwrap().to_string(), "trap");
    assert!(table.get(0).is_none());
    assert!(resource(&results[0]) == original);
    assert!(table.after_call(Ok(()), &mut consumer.as_context_mut(), &mut results).is_ok());
    assert!(table.get(0) == Some(original));
    assert!(resource(&results[0]).ty() == ResourceType::host_dynamic(4));
    assert!(resource(&results[0]).owned());
}

#[test]
fn unregistered_types_are_left() {
    let mut consumer = store();
    let original = handle(&mut store(), 5, 1);
    let mapper = mapper(vec![], vec![own(1)]);
    for map in [vec![], vec![(ResourceType::host_dynamic(2), 4)]] {
        let mut results = vec![Value::Resource(original)];
        let (table, outcome) = proxy_results(
            &mapper,
            &map,
            &mut results,
            &mut consumer.as_context_mut(),
            ResourceTable::new(),
        );
        assert!(outcome.is_ok());
        assert!(table.is_empty());
        assert!(resource(&results[0]) == original);
    }
}

#[test]
fn the_first_entry_for_a_type_counts() {
    let a = ResourceType::host_dynamic(1);
    let b = ResourceType::host_dynamic(2);
    let map = vec![(a, 10), (b, 20), (a, 30)];
    assert_eq!(registered_type(&map, a), Some(10));
    assert_eq!(registered_type(&map, b), Some(20));
    assert_eq!(registered_type(&map, ResourceType::host_dynamic(3)), None);
}

#[test]
fn a_full_table_refuses_a_result() {
    let mut consumer = store();
    let original = handle(&mut store(), 5, 1);
    let mapper = mapper(vec![], vec![own(1), own(1)]);
    let map = vec![(ResourceType::host_dynamic(1), 0)];
    let mut table = ResourceTable::new();
    table.set_max_capacity(1);
    let mut results = vec![Value::Resource(original), Value::Resource(original)];
    let (_, outcome) =
        proxy_results(&mapper, &map, &mut results, &mut consumer.as_context_mut(), table);
    assert!(matches!(outcome, Err(VisitError::TableFull)));
    assert!(resource(&results[0]) != original);
    assert!(resource(&results[1]) == original);
}

#[test]
fn handles_of_other_types_are_not_resolved() {
    let mut consumer = store();
    let mut table = ResourceTable::new();
    let id = table.push(handle(&mut store(), 5, 1)).unwrap().rep();
    // A host resource of a static type does not stand for a proxy number.
    let fixed: ResourceAny =
        Resource::<u8>::new_own(id).try_into_resource_any(&mut consumer).unwrap();
    let mapper = mapper(vec![own(9)], vec![]);
    let params = vec![Value::Resource(fixed)];
    let mut context = consumer.as_context_mut();
    let params = resolve_params(&mapper, params, &vec![None], &mut context, &table);
    assert!(resource(&params[0]) == fixed);
}

#[test]
fn handles_are_found_inside_other_values() {
    let mut store = store();
    let h: Vec<ResourceAny> = (0..8).map(|n| handle(&mut store, n, 1)).collect();
    let types = vec![
        ValueType::Other,
        ValueType::Record(vec![
            ValueType::Other,
            ValueType::List(Box::new(own(1))),
            ValueType::Borrow(ResourceType::host_dynamic(1)),
        ]),
        ValueType::Tuple(vec![ValueType::Option(Box::new(own(1))), ValueType::Other]),
        ValueType::Result(Some(Box::new(own(1))), None),
        ValueType::Result(None, Some(Box::new(own(1)))),
        ValueType::Variant(vec![
            ("one".to_string(), Some(own(1))),
            ("two".to_string(), Some(ValueType::Other)),
        ]),
        ValueType::Variant(vec![
            ("one".to_string(), Some(own(1))),
            ("two".to_string(), Some(ValueType::Other)),
        ]),
    ];
    let params = vec![
        plain(1),
        Value::Record(vec![
            ("a".to_string(), plain(2)),
            ("b".to_string(), Value::List(vec![Value::Resource(h[0]), Value::Resource(h[1])])),
            ("c".to_string(), Value::Resource(h[2])),
        ]),
        Value::Tuple(vec![Value::Option(Some(Box::new(Value::Resource(h[3])))), plain(3)]),
        Value::Result(Ok(Some(Box::new(Value::Resource(h[4]))))),
        Value::Result(Err(Some(Box::new(Value::Resource(h[5]))))),
        Value::Variant("one".to_string(), Some(Box::new(Value::Resource(h[6])))),
        Value::Variant("two".to_string(), Some(Box::new(plain(4)))),
    ];
    let mapper = mapper(types, vec![]);
    assert!(mapper.accepts_params(&params));
    let (params, found) = param_handles(&mapper, params);
    assert!(found == h[..7].to_vec());

    // Every second handle is resolved.
    let mut table = ResourceTable::new();
    let ids: Vec<Option<u32>> = (0..7)
        .map(|n| {
            let id = table.push(h[7]).unwrap().rep();
            if n % 2 == 0 { Some(id) } else { None }
        })
        .collect();
    let params = resolve_params_by(&mapper, params, &ids, &table);
    assert_eq!(number(&params[0]), 1);
    match &params[1] {
        Value::Record(fields) => {
            assert_eq!(fields[0].0, "a");
            assert_eq!(number(&fields[0].1), 2);
            match &fields[1].1 {
                Value::List(items) => {
                    assert!(resource(&items[0]) == h[7]);
                    assert!(resource(&items[1]) == h[1]);
                }
                _ => panic!(),
            }
            assert!(resource(&fields[2].1) == h[7]);
        }
        _ => panic!(),
    }
    let (_, left) = param_handles(&mapper, params);
    assert!(left == vec![h[7], h[1], h[7], h[3], h[7], h[5], h[7]]);
}

#[test]
fn values_of_another_shape_are_left() {
    let mapper = mapper(vec![ValueType::Tuple(vec![ValueType::Other, own(1)])], vec![own(1)]);
    // A tuple that is too short is not one of the type.
    assert!(!mapper.accepts_params(&vec![Value::Tuple(vec![plain(1)])]));
    assert!(!mapper.accepts_params(&vec![]));
    let params = vec![plain(7)];
    assert!(mapper.accepts_params(&params));
    let (params, found) = param_handles(&mapper, params);
    assert_eq!(number(&params[0]), 7);
    assert!(found.is_empty());
    assert!(mapper.accepts_results(&vec![Value::Option(None)]));
    assert!(!mapper.accepts_results(&vec![]));
}

#[test]
fn a_context_starts_without_a_resource_map() {
    let signature = FuncSignature { is_async: true, params: vec![own(1)], results: vec![] };
    let context = build_link_context(&signature);
    assert!(!context.resource.leaves_params());
    assert!(context.resource.leaves_results());
    assert!(context.resource_map.is_none());
}

#[test]
fn a_proxy_table_reuses_vacant_slots() {
    let mut store = store();
    let h: Vec<ResourceAny> = (0..4).map(|n| handle(&mut store, n, 1)).collect();
    let mut table = ResourceProxyTable::new(3);
    assert!(table.resource_type() == ResourceType::host_dynamic(3));
    assert_eq!(table.insert(h[0]), 0);
    assert_eq!(table.insert(h[1]), 1);
    assert_eq!(table.insert(h[2]), 2);
    assert!(table.get(1) == Some(h[1]));
    assert!(table.remove(1) == Some(h[1]));
    assert!(table.remove(1).is_none());
    assert!(table.get(1).is_none());
    assert!(table.get(9).is_none());
    assert!(table.remove(9).is_none());
    assert_eq!(table.insert(h[3]), 1);
    assert!(table.get(1) == Some(h[3]));
    assert!(table.get(0) == Some(h[0]));
}

#[test]
fn a_proxy_table_remaps_top_level_handles() {
    let mut producer = store();
    let mut consumer = store();
    let original = handle(&mut producer, 77, 1);
    let mut table = ResourceProxyTable::new(4);
    let mut results = vec![
        plain(1),
        Value::Resource(original),
        Value::List(vec![Value::Resource(original)]),
    ];
    assert!(holds_resource(&results));
    table.remap_results(&mut consumer.as_context_mut(), &mut results).unwrap();
    assert_eq!(number(&results[0]), 1);
    let proxy = resource(&results[1]);
    assert!(proxy.ty() == ResourceType::host_dynamic(4));
    match &results[2] {
        Value::List(items) => assert!(resource(&items[0]) == original),
        _ => panic!(),
    }
    assert!(table.get(0) == Some(original));

    let unknown = handle(&mut consumer, 50, 4);
    let params = vec![Value::Resource(proxy), plain(2), Value::Resource(unknown)];
    let numbers = vec![Some(7), None, None];
    let params = table.remap_params(&mut consumer.as_context_mut(), params, &numbers);
    assert!(resource(&params[0]) == original);
    assert_eq!(number(&params[1]), 2);
    assert!(resource(&params[2]) == unknown);
    assert!(!holds_resource(&vec![plain(1), Value::Option(None)]));
    assert!(table.resolve(unknown, Some(0)) == original);
    assert!(table.resolve(unknown, None) == unknown);
}

#[test]
fn values_are_read_and_written_back() {
    let handle = handle(&mut store(), 1, 2);
    let vals = vec![
        Val::U32(7),
        Val::Record(vec![
            ("a".to_string(), Val::List(vec![Val::Resource(handle), Val::Bool(true)])),
            ("b".to_string(), Val::Option(None)),
        ]),
        Val::Tuple(vec![Val::Option(Some(Box::new(Val::String("s".to_string()))))]),
        Val::Variant("one".to_string(), Some(Box::new(Val::Resource(handle)))),
        Val::Variant("two".to_string(), None),
        Val::Result(Ok(Some(Box::new(Val::S8(-1))))),
        Val::Result(Err(None)),
        Val::Enum("e".to_string()),
    ];
    let values = read_values(vals.clone());
    assert_eq!(number(&values[0]), 7);
    match &values[1] {
        Value::Record(fields) => {
            assert_eq!(fields[1].0, "b");
            assert!(matches!(fields[1].1, Value::Option(None)));
            match &fields[0].1 {
                Value::List(items) => {
                    assert!(resource(&items[0]) == handle);
                    assert!(matches!(items[1], Value::Plain(Val::Bool(true))));
                }
                _ => panic!(),
            }
        }
        _ => panic!(),
    }
    match &values[2] {
        Value::Tuple(items) => match &items[0] {
            Value::Option(Some(payload)) => {
                assert!(matches!(&**payload, Value::Plain(Val::String(s)) if s == "s"))
            }
            _ => panic!(),
        },
        _ => panic!(),
    }
    match &values[3] {
        Value::Variant(case, Some(payload)) => {
            assert_eq!(case, "one");
            assert!(resource(payload) == handle);
        }
        _ => panic!(),
    }
    assert!(matches!(&values[4], Value::Variant(case, None) if case == "two"));
    assert!(matches!(&values[5], Value::Result(Ok(Some(_)))));
    assert!(matches!(&values[6], Value::Result(Err(None))));
    assert!(matches!(&values[7], Value::Plain(Val::Enum(_))));
    assert_eq!(write_values(values), vals);
}

#[test]
fn earlier_proxies_stay() {
    let mut producer = store();
    let mut consumer = store();
    let mapper = mapper(vec![own(9), own(9)], vec![own(1)]);
    let map = vec![(ResourceType::host_dynamic(1), 9)];
    let mut table = ResourceTable::new();
    let mut originals = Vec::new();
    let mut proxies = Vec::new();
    for n in 0..2 {
        let original = handle(&mut producer, n, 1);
        let mut results = vec![Value::Resource(original)];
        let (after, outcome) = proxy_results(
            &mapper,
            &map,
            &mut results,
            &mut consumer.as_context_mut(),
            table,
        );
        assert!(outcome.is_ok());
        table = after;
        originals.push(original);
        proxies.push(resource(&results[0]));
    }
    let params = vec![Value::Resource(proxies[1]), Value::Resource(proxies[0])];
    let mut context = consumer.as_context_mut();
    let params = resolve_params(&mapper, params, &vec![None, None], &mut context, &table);
    assert!(resource(&params[0]) == originals[1]);
    assert!(resource(&params[1]) == originals[0]);
}

#[test]
fn the_imports_of_a_component_type_are_read() {
    let text = r#"(component
      (import "f" (func (param "x" u8)))
      (import "i" (instance (export "g" (func)) (export "r" (type (sub resource))))))"#;
    let component = Component::new(&engine(), text).unwrap();
    let item = ComponentItem::Component(component.component_type());
    match read_item(&component, item) {
        ItemType::Component(imports) => {
            assert_eq!(imports.len(), 2);
            assert_eq!(imports[0].0, "f");
            match &imports[0].1 {
                ItemType::Func(signature) => {
                    assert!(!signature.is_async);
                    assert_eq!(signature.params.len(), 1);
                    assert_eq!(signature.results.len(), 0);
                }
                _ => panic!(),
            }
            match &imports[1].1 {
                ItemType::Instance(exports) => {
                    assert_eq!(exports[0].0, "g");
                    assert_eq!(exports[1].0, "r");
                    assert!(matches!(exports[1].1, ItemType::Resource(_)));
                }
                _ => panic!(),
            }
        }
        _ => panic!(),
    }
}
