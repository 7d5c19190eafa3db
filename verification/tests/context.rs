use kaze::context::{duplicate_module_message, Context};
use kaze::graph::{Instance, Ports, Signal, SignalData, Value};

/// Creates a module, or panics where one with the same name exists.
fn module(context: &mut Context, name: &str) -> usize {
    if context.contains_module(name) {
        panic!("{}", duplicate_module_message(name));
    }
    context.module(name.to_string())
}

#[test]
#[should_panic(expected = "A module with the name \"a\" already exists in this context.")]
fn unique_module_names() {
    let mut c = Context::new();

    let _ = module(&mut c, "a"); // Unique name, OK
    let _ = module(&mut c, "b"); // Unique name, OK

    // Panic
    let _ = module(&mut c, "a");
}

#[test]
fn modules_are_numbered_in_order() {
    let mut c = Context::new();
    assert_eq!(module(&mut c, "my_module"), 0);
    assert_eq!(module(&mut c, "another_mod"), 1);
    assert!(c.contains_module("my_module"));
    assert!(c.contains_module("another_mod"));
    assert!(!c.contains_module("my_mod"));
    let g = c.into_graph();
    assert_eq!(g.modules.len(), 2);
    assert_eq!(g.modules[0].name, "my_module");
    assert_eq!(g.modules[1].name, "another_mod");
    assert_eq!(g.modules[0].outputs.get("out"), None);
}

#[test]
fn new_context_is_empty() {
    let c = Context::new();
    assert!(!c.contains_module(""));
    let g = c.into_graph();
    assert!(g.modules.is_empty());
    assert!(g.signals.is_empty());
    assert!(g.instances.is_empty());
}

#[test]
fn parts_keep_their_order_in_large_graphs() {
    let mut c = Context::new();
    for i in 0..300u32 {
        let name = format!("m{}", i);
        assert_eq!(module(&mut c, &name), i as usize);
        let signal = Signal { bit_width: 32, data: SignalData::Lit { value: Value::U32(i) } };
        assert_eq!(c.signal(signal), i as usize);
        let instance = Instance { instantiated_module: i as usize, driven_inputs: Ports::new() };
        assert_eq!(c.instance(instance), i as usize);
    }
    let g = c.into_graph();
    assert_eq!((g.modules.len(), g.signals.len(), g.instances.len()), (300, 300, 300));
    for i in 0..300usize {
        assert_eq!(g.modules[i].name, format!("m{}", i));
        assert_eq!(g.instances[i].instantiated_module, i);
        match g.signals[i].data {
            SignalData::Lit { value } => assert_eq!(value, Value::U32(i as u32)),
            _ => panic!("not a literal"),
        }
    }
}

#[test]
fn ports_hold_the_last_binding() {
    let mut ports = Ports::new();
    assert_eq!(ports.get("a"), None);
    ports.insert("a".to_string(), 3);
    ports.insert("b".to_string(), 4);
    assert_eq!(ports.get("a"), Some(3));
    ports.insert("a".to_string(), 5);
    assert_eq!(ports.get("a"), Some(5));
    assert_eq!(ports.get("b"), Some(4));
    assert_eq!(ports.get("c"), None);
}

#[test]
fn duplicate_message() {
    assert_eq!(
        duplicate_module_message("x y"),
        "A module with the name \"x y\" already exists in this context."
    );
}
