use astrbox::error::ConfigurationError;
use astrbox::tree::{Item, Member, ModuleNode};

fn strings(pieces: &[&str]) -> Vec<String> {
    pieces.iter().map(|s| s.to_string()).collect()
}

fn sorted(mut names: Vec<String>) -> Vec<String> {
    names.sort();
    names
}

#[test]
fn new_node_holds_nothing_but_itself() {
    let node = ModuleNode::new();
    assert_eq!(node.resolve(&strings(&[])), Some(Item::Module));
    assert_eq!(node.resolve(&strings(&["f"])), None);
    assert!(node.names().is_empty());
    assert!(node.get("f").is_none());
}

#[test]
fn register_binds_a_name_in_the_node() {
    let mut node = ModuleNode::new();
    assert_eq!(node.register("f", 0), Ok(()));
    assert_eq!(node.register("g", 1), Ok(()));
    assert_eq!(node.resolve(&strings(&["f"])), Some(Item::Function(0)));
    assert_eq!(node.resolve(&strings(&["g"])), Some(Item::Function(1)));
    assert_eq!(node.resolve(&strings(&["h"])), None);
    assert_eq!(node.resolve(&strings(&["f", "g"])), None);
    assert!(matches!(node.get("f"), Some(Member::Function(0))));
    assert!(matches!(node.get("g"), Some(Member::Function(1))));
    assert_eq!(sorted(node.names()), strings(&["f", "g"]));
}

#[test]
fn register_refuses_a_taken_name_and_leaves_the_node_alone() {
    let mut node = ModuleNode::new();
    assert_eq!(node.register("f", 0), Ok(()));
    assert_eq!(node.register("f", 1), Err(ConfigurationError::Collision));
    assert_eq!(node.resolve(&strings(&["f"])), Some(Item::Function(0)));
    assert_eq!(node.names(), strings(&["f"]));
}

#[test]
fn register_accepts_the_same_function_again() {
    let mut node = ModuleNode::new();
    assert_eq!(node.register("f", 7), Ok(()));
    assert_eq!(node.register("f", 7), Ok(()));
    assert_eq!(node.names(), strings(&["f"]));
    assert_eq!(node.resolve(&strings(&["f"])), Some(Item::Function(7)));
}

#[test]
fn register_refuses_names_that_are_no_segments() {
    let mut node = ModuleNode::new();
    assert_eq!(node.register("", 0), Err(ConfigurationError::InvalidName));
    assert_eq!(node.register("a.b", 0), Err(ConfigurationError::InvalidName));
    assert_eq!(
        node.register_at(&strings(&["cli", ""]), "f", 0),
        Err(ConfigurationError::InvalidName)
    );
    assert_eq!(
        node.register_at(&strings(&["c.li"]), "f", 0),
        Err(ConfigurationError::InvalidName)
    );
    assert!(node.names().is_empty());
}

#[test]
fn register_at_makes_the_modules_on_the_way() {
    let mut node = ModuleNode::new();
    assert_eq!(node.register_at(&strings(&["a", "b"]), "f", 3), Ok(()));
    assert_eq!(node.resolve(&strings(&["a"])), Some(Item::Module));
    assert_eq!(node.resolve(&strings(&["a", "b"])), Some(Item::Module));
    assert_eq!(node.resolve(&strings(&["a", "b", "f"])), Some(Item::Function(3)));
    assert_eq!(node.resolve(&strings(&["a", "f"])), None);
    assert_eq!(node.resolve(&strings(&["b"])), None);
    assert_eq!(node.register_at(&strings(&["a"]), "g", 4), Ok(()));
    assert_eq!(node.resolve(&strings(&["a", "g"])), Some(Item::Function(4)));
    assert_eq!(node.resolve(&strings(&["a", "b", "f"])), Some(Item::Function(3)));
}

#[test]
fn a_function_in_the_way_blocks_the_path() {
    let mut node = ModuleNode::new();
    assert_eq!(node.register("f", 0), Ok(()));
    assert_eq!(
        node.register_at(&strings(&["f"]), "g", 1),
        Err(ConfigurationError::Collision)
    );
    assert_eq!(
        node.register_at(&strings(&["f", "x"]), "g", 1),
        Err(ConfigurationError::Collision)
    );
    assert_eq!(node.resolve(&strings(&["f"])), Some(Item::Function(0)));
    assert_eq!(node.resolve(&strings(&["f", "g"])), None);
}

#[test]
fn a_module_in_the_way_blocks_the_name() {
    let mut node = ModuleNode::new();
    assert_eq!(node.register_at(&strings(&["cli"]), "f", 0), Ok(()));
    assert_eq!(node.register("cli", 1), Err(ConfigurationError::Collision));
    assert_eq!(node.resolve(&strings(&["cli"])), Some(Item::Module));
    assert_eq!(node.resolve(&strings(&["cli", "f"])), Some(Item::Function(0)));
}

#[test]
fn a_refused_registration_deep_down_changes_nothing() {
    let mut node = ModuleNode::new();
    assert_eq!(node.register_at(&strings(&["a", "b"]), "f", 0), Ok(()));
    assert_eq!(
        node.register_at(&strings(&["a", "b"]), "f", 1),
        Err(ConfigurationError::Collision)
    );
    assert_eq!(
        node.register_at(&strings(&["a", "b", "f"]), "g", 1),
        Err(ConfigurationError::Collision)
    );
    assert_eq!(node.resolve(&strings(&["a", "b", "f"])), Some(Item::Function(0)));
    assert_eq!(node.resolve(&strings(&["a", "b", "f", "g"])), None);
    let b = node.node_at(&strings(&["a", "b"])).unwrap();
    assert_eq!(b.names(), strings(&["f"]));
}

#[test]
fn get_hands_out_the_child_node() {
    let mut node = ModuleNode::new();
    node.register_at(&strings(&["cli"]), "f", 5).unwrap();
    match node.get("cli") {
        Some(Member::Module(child)) => {
            assert_eq!(child.resolve(&strings(&["f"])), Some(Item::Function(5)));
            assert_eq!(child.names(), strings(&["f"]));
        }
        other => panic!("expected a module, found {other:?}"),
    }
}

#[test]
fn node_at_follows_modules_only() {
    let mut node = ModuleNode::new();
    node.register_at(&strings(&["a", "b"]), "f", 0).unwrap();
    assert!(node.node_at(&strings(&[])).is_some());
    assert!(node.node_at(&strings(&["a"])).is_some());
    assert!(node.node_at(&strings(&["a", "b"])).is_some());
    assert!(node.node_at(&strings(&["a", "b", "f"])).is_none());
    assert!(node.node_at(&strings(&["a", "b", "f", "g"])).is_none());
    assert!(node.node_at(&strings(&["a", "x"])).is_none());
    assert!(node.node_at(&strings(&["x"])).is_none());
    let a = node.node_at(&strings(&["a"])).unwrap();
    assert_eq!(a.resolve(&strings(&["b", "f"])), Some(Item::Function(0)));
}

#[test]
fn names_are_compared_exactly() {
    let mut node = ModuleNode::new();
    node.register("Hello", 0).unwrap();
    assert_eq!(node.resolve(&strings(&["hello"])), None);
    assert_eq!(node.resolve(&strings(&["Hello "])), None);
    assert_eq!(node.resolve(&strings(&["Hello"])), Some(Item::Function(0)));
    assert_eq!(node.register("hello", 1), Ok(()));
}
