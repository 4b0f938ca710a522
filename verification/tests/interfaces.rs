use wasm_runtime_composer::{ComposableType, InterfaceSet};

#[test]
fn a_set_holds_a_name_once() {
    let mut set = InterfaceSet::new();
    assert!(set.insert("add".to_string()));
    assert!(set.insert("ping".to_string()));
    assert!(!set.insert("add".to_string()));
    assert_eq!(set.len(), 2);
    assert!(set.contains("ping"));
    assert!(!set.contains("pin"));
    let ty = ComposableType::new(set, InterfaceSet::new());
    assert_eq!(ty.exports().names(), &vec!["add".to_string(), "ping".to_string()]);
    assert_eq!(ty.imports().len(), 0);
}
