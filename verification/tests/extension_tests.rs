use astrbox::extension::{load, shipped_layout};
use astrbox::function::{ExportedFunction, Routine};
use astrbox::layout::LayoutEntry;
use astrbox::tree::{Item, Member};
use astrbox::value::Value;

#[test]
fn the_shipped_layout_binds_the_greeting_in_core() {
    let hello = ExportedFunction::new("hello_from_bin", Routine::HelloFromBin);
    assert_eq!(shipped_layout(), vec![LayoutEntry::new("core", "hello_from_bin", hello)]);
}

#[test]
fn load_builds_the_root_module_of_the_extension() {
    let root = load().expect("the shipped layout is valid");
    assert_eq!(root.name(), "core");
    assert_eq!(root.function_count(), 1);
    assert_eq!(root.resolve("core"), Some(Item::Module));
    assert_eq!(root.resolve("core.hello_from_bin"), Some(Item::Function(0)));
    assert_eq!(root.resolve("core.cli"), None);
    assert_eq!(root.resolve("hello_from_bin"), None);
    let hello = root.lookup_function("core.hello_from_bin").unwrap();
    assert_eq!(hello.name(), "hello_from_bin");
    assert_eq!(hello.call(&[]), Ok(Value::Text("Hello from astrbox!".to_string())));
}

#[test]
fn the_loaded_tree_can_be_walked() {
    let root = load().unwrap();
    let core = root.module(root.name()).expect("the root is a module");
    assert_eq!(core.names(), vec!["hello_from_bin".to_string()]);
    assert!(matches!(core.get("hello_from_bin"), Some(Member::Function(0))));
    assert!(root.module("core.hello_from_bin").is_none());
    assert!(root.module("core.cli").is_none());
}

#[test]
fn load_gives_the_same_namespace_every_time() {
    let first = load().unwrap();
    let second = load().unwrap();
    assert_eq!(first.name(), second.name());
    assert_eq!(first.resolve("core.hello_from_bin"), second.resolve("core.hello_from_bin"));
    assert_eq!(first.function(0), second.function(0));
}
