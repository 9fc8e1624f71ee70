use astrbox::builder::{build, RootModule};
use astrbox::error::ConfigurationError;
use astrbox::function::{ExportedFunction, Routine};
use astrbox::layout::LayoutEntry;
use astrbox::tree::{Item, Member};
use astrbox::value::Value;

fn hello() -> ExportedFunction {
    ExportedFunction::new("hello_from_bin", Routine::HelloFromBin)
}

#[test]
fn reexported_function_answers_under_both_paths() {
    let f = hello();
    let layout = vec![
        LayoutEntry::new("root", "hello_from_bin", f.clone()),
        LayoutEntry::new("root.cli", "hello_from_bin", f),
    ];
    let root = build(&layout).expect("the layout has no collision");
    let upper = root.lookup_function("root.hello_from_bin").expect("bound in root");
    let lower = root.lookup_function("root.cli.hello_from_bin").expect("bound in root.cli");
    assert_eq!(upper.call(&[]), Ok(Value::Text("Hello from astrbox!".to_string())));
    assert_eq!(lower.call(&[]), Ok(Value::Text("Hello from astrbox!".to_string())));
}

#[test]
fn two_functions_under_one_name_are_refused() {
    let f1 = ExportedFunction::new("f1", Routine::HelloFromBin);
    let f2 = ExportedFunction::new("f2", Routine::HelloFromBin);
    assert_ne!(f1, f2);
    let layout = vec![LayoutEntry::new("root", "f", f1), LayoutEntry::new("root", "f", f2)];
    assert_eq!(build(&layout).err(), Some(ConfigurationError::Collision));
}

#[test]
fn reexport_leads_to_the_identical_implementation() {
    let f = hello();
    let layout = vec![
        LayoutEntry::new("root", "hello_from_bin", f.clone()),
        LayoutEntry::new("root.cli", "hello_from_bin", f.clone()),
    ];
    let root = build(&layout).unwrap();
    assert_eq!(root.function_count(), 1);
    assert_eq!(root.resolve("root.hello_from_bin"), Some(Item::Function(0)));
    assert_eq!(root.resolve("root.cli.hello_from_bin"), Some(Item::Function(0)));
    let upper = root.lookup_function("root.hello_from_bin").unwrap();
    let lower = root.lookup_function("root.cli.hello_from_bin").unwrap();
    assert!(std::ptr::eq(upper, lower));
    assert_eq!(upper, &f);
}

#[test]
fn modules_on_the_way_are_made() {
    let layout = vec![LayoutEntry::new("root.a.b.c", "f", hello())];
    let root = build(&layout).unwrap();
    assert_eq!(root.name(), "root");
    assert_eq!(root.resolve("root"), Some(Item::Module));
    assert_eq!(root.resolve("root.a"), Some(Item::Module));
    assert_eq!(root.resolve("root.a.b"), Some(Item::Module));
    assert_eq!(root.resolve("root.a.b.c"), Some(Item::Module));
    assert_eq!(root.resolve("root.a.b.c.f"), Some(Item::Function(0)));
    assert_eq!(root.resolve("root.a.b.c.f.g"), None);
    assert_eq!(root.resolve("root.a.x"), None);
    assert_eq!(root.resolve("other"), None);
    assert_eq!(root.resolve(""), None);
    assert_eq!(root.resolve("root."), None);
    assert_eq!(root.resolve("root..a"), None);
    assert_eq!(root.resolve("Root"), None);
}

#[test]
fn empty_layout_is_refused() {
    assert_eq!(build(&[]).err(), Some(ConfigurationError::EmptyLayout));
}

#[test]
fn malformed_paths_and_names_are_refused() {
    let malformed = [
        ("", "f"),
        ("root..cli", "f"),
        (".root", "f"),
        ("root.", "f"),
        ("root", ""),
        ("root", "a.b"),
    ];
    for (path, name) in malformed {
        let layout = vec![LayoutEntry::new(path, name, hello())];
        assert_eq!(
            build(&layout).err(),
            Some(ConfigurationError::InvalidName),
            "{path:?} {name:?}"
        );
    }
}

#[test]
fn second_root_is_refused() {
    let layout = vec![
        LayoutEntry::new("root", "f", hello()),
        LayoutEntry::new("other.cli", "f", hello()),
    ];
    assert_eq!(build(&layout).err(), Some(ConfigurationError::ForeignRoot));
}

#[test]
fn function_where_a_module_is_needed_is_refused() {
    let layout = vec![
        LayoutEntry::new("root", "cli", hello()),
        LayoutEntry::new("root.cli", "f", hello()),
    ];
    assert_eq!(build(&layout).err(), Some(ConfigurationError::Collision));
    let layout = vec![
        LayoutEntry::new("root.cli", "f", hello()),
        LayoutEntry::new("root", "cli", hello()),
    ];
    assert_eq!(build(&layout).err(), Some(ConfigurationError::Collision));
}

#[test]
fn same_binding_twice_is_accepted() {
    let layout = vec![
        LayoutEntry::new("root", "f", hello()),
        LayoutEntry::new("root", "f", hello()),
    ];
    let root = build(&layout).unwrap();
    assert_eq!(root.function_count(), 1);
    assert_eq!(root.resolve("root.f"), Some(Item::Function(0)));
}

#[test]
fn first_unacceptable_entry_gives_the_reason() {
    let f1 = ExportedFunction::new("f1", Routine::HelloFromBin);
    let f2 = ExportedFunction::new("f2", Routine::HelloFromBin);
    let layout = vec![
        LayoutEntry::new("root", "f", f1),
        LayoutEntry::new("root", "f", f2),
        LayoutEntry::new("root..x", "g", hello()),
    ];
    assert_eq!(build(&layout).err(), Some(ConfigurationError::Collision));
}

#[test]
fn functions_are_numbered_in_order_of_first_appearance() {
    let f1 = ExportedFunction::new("f1", Routine::HelloFromBin);
    let f2 = ExportedFunction::new("f2", Routine::HelloFromBin);
    let layout = vec![
        LayoutEntry::new("root", "a", f1.clone()),
        LayoutEntry::new("root.m", "b", f2.clone()),
        LayoutEntry::new("root.m", "c", f1.clone()),
    ];
    let root = build(&layout).unwrap();
    assert_eq!(root.function_count(), 2);
    assert_eq!(root.resolve("root.a"), Some(Item::Function(0)));
    assert_eq!(root.resolve("root.m.b"), Some(Item::Function(1)));
    assert_eq!(root.resolve("root.m.c"), Some(Item::Function(0)));
    assert_eq!(root.function(0), Some(&f1));
    assert_eq!(root.function(1), Some(&f2));
    assert_eq!(root.function(2), None);
    assert_eq!(root.lookup_function("root.m").map(|f| f.name().to_string()), None);
}

#[test]
fn every_declared_function_is_reachable_by_its_declared_path() {
    let f = ExportedFunction::new("f", Routine::HelloFromBin);
    let g = ExportedFunction::new("g", Routine::HelloFromBin);
    let layout = vec![
        LayoutEntry::new("pkg", "f", f.clone()),
        LayoutEntry::new("pkg.a", "g", g.clone()),
        LayoutEntry::new("pkg.a.b", "f", f.clone()),
        LayoutEntry::new("pkg.c", "again", g.clone()),
    ];
    let root = build(&layout).unwrap();
    for entry in &layout {
        let address = format!("{}.{}", entry.path, entry.name);
        assert_eq!(root.lookup_function(&address), Some(&entry.function), "{address}");
    }
}

#[test]
fn a_conflict_is_refused_wherever_the_two_entries_stand() {
    let f1 = ExportedFunction::new("f1", Routine::HelloFromBin);
    let f2 = ExportedFunction::new("f2", Routine::HelloFromBin);
    let layout = vec![
        LayoutEntry::new("root.a", "x", f1.clone()),
        LayoutEntry::new("root", "f", f1.clone()),
        LayoutEntry::new("root.b", "y", f2.clone()),
        LayoutEntry::new("root", "f", f2.clone()),
        LayoutEntry::new("root.c", "z", f1.clone()),
    ];
    assert_eq!(build(&layout).err(), Some(ConfigurationError::Collision));
}

#[test]
fn different_functions_get_different_places() {
    let f1 = ExportedFunction::new("f1", Routine::HelloFromBin);
    let f2 = ExportedFunction::new("f2", Routine::HelloFromBin);
    let layout = vec![LayoutEntry::new("root", "a", f1), LayoutEntry::new("root", "b", f2)];
    let root = build(&layout).unwrap();
    let a = root.lookup_function("root.a").unwrap();
    let b = root.lookup_function("root.b").unwrap();
    assert!(!std::ptr::eq(a, b));
    assert_ne!(root.resolve("root.a"), root.resolve("root.b"));
}

#[test]
fn the_built_tree_can_be_walked_from_the_root() {
    let f = hello();
    let layout = vec![
        LayoutEntry::new("root", "hello_from_bin", f.clone()),
        LayoutEntry::new("root.cli", "hello_from_bin", f),
    ];
    let root = build(&layout).unwrap();
    let top = root.module("root").unwrap();
    let mut names = top.names();
    names.sort();
    assert_eq!(names, vec!["cli".to_string(), "hello_from_bin".to_string()]);
    assert!(matches!(top.get("hello_from_bin"), Some(Member::Function(0))));
    match top.get("cli") {
        Some(Member::Module(cli)) => {
            assert_eq!(cli.names(), vec!["hello_from_bin".to_string()]);
            assert!(matches!(cli.get("hello_from_bin"), Some(Member::Function(0))));
        }
        other => panic!("expected a module, found {other:?}"),
    }
    assert!(root.module("root.cli").is_some());
    assert!(root.module("root.hello_from_bin").is_none());
    assert!(root.module("root.nothing").is_none());
    assert!(root.module("").is_none());
}

#[test]
fn a_root_module_can_be_shared_between_threads() {
    fn shareable<T: Send + Sync>() {}
    shareable::<RootModule>();
}

#[test]
fn a_long_layout_is_taken_in() {
    let mut layout = Vec::new();
    for i in 0..40 {
        let f = ExportedFunction::new(&format!("f{i}"), Routine::HelloFromBin);
        layout.push(LayoutEntry::new(&format!("root.m{}", i % 5), &format!("n{i}"), f));
    }
    let root = build(&layout).unwrap();
    assert_eq!(root.function_count(), 40);
    for i in 0..40 {
        assert_eq!(root.resolve(&format!("root.m{}.n{i}", i % 5)), Some(Item::Function(i)));
    }
}

#[test]
fn an_earlier_fault_hides_a_later_one() {
    let f1 = ExportedFunction::new("f1", Routine::HelloFromBin);
    let f2 = ExportedFunction::new("f2", Routine::HelloFromBin);
    let layout = vec![
        LayoutEntry::new("root", "f", f1.clone()),
        LayoutEntry::new("root..x", "g", hello()),
        LayoutEntry::new("root", "f", f2.clone()),
    ];
    assert_eq!(build(&layout).err(), Some(ConfigurationError::InvalidName));
    let layout = vec![
        LayoutEntry::new("root", "f", f1.clone()),
        LayoutEntry::new("other", "g", hello()),
        LayoutEntry::new("root", "f", f2.clone()),
    ];
    assert_eq!(build(&layout).err(), Some(ConfigurationError::ForeignRoot));
    let layout = vec![
        LayoutEntry::new("other", "", hello()),
        LayoutEntry::new("root", "f", f1),
    ];
    assert_eq!(build(&layout).err(), Some(ConfigurationError::InvalidName));
}

#[test]
fn every_function_of_the_table_is_bound_somewhere() {
    let f = ExportedFunction::new("f", Routine::HelloFromBin);
    let g = ExportedFunction::new("g", Routine::HelloFromBin);
    let layout = vec![
        LayoutEntry::new("root", "a", f.clone()),
        LayoutEntry::new("root.x", "b", g.clone()),
        LayoutEntry::new("root.x.y", "c", f.clone()),
        LayoutEntry::new("root", "d", g.clone()),
    ];
    let root = build(&layout).unwrap();
    assert_eq!(root.function_count(), 2);
    for id in 0..root.function_count() {
        let bound = layout.iter().any(|entry| {
            root.resolve(&format!("{}.{}", entry.path, entry.name)) == Some(Item::Function(id))
        });
        assert!(bound, "function {id} is bound nowhere");
    }
    assert_ne!(root.function(0).unwrap().name(), root.function(1).unwrap().name());
}

#[test]
fn there_are_no_wildcards() {
    let layout = vec![LayoutEntry::new("root.cli", "f", hello())];
    let root = build(&layout).unwrap();
    assert_eq!(root.resolve("root.*"), None);
    assert_eq!(root.resolve("root.*.f"), None);
    assert_eq!(root.resolve("*"), None);
    assert_eq!(root.resolve("root.cli.F"), None);
    assert_eq!(root.resolve(" root.cli.f"), None);
    assert_eq!(root.resolve("root.cli.f"), Some(Item::Function(0)));
}

#[test]
fn a_name_may_be_used_again_in_another_module() {
    let f = ExportedFunction::new("f", Routine::HelloFromBin);
    let g = ExportedFunction::new("g", Routine::HelloFromBin);
    let layout = vec![
        LayoutEntry::new("root.a", "run", f.clone()),
        LayoutEntry::new("root.b", "run", g.clone()),
    ];
    let root = build(&layout).unwrap();
    assert_eq!(root.lookup_function("root.a.run"), Some(&f));
    assert_eq!(root.lookup_function("root.b.run"), Some(&g));
}
