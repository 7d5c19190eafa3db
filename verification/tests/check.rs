use kaze::check::SearchFault;
use kaze::compiler::Compiler;
use kaze::graph::{
    low_bits, BinOp, Graph, Instance, Module, Ports, Signal, SignalData, UnOp, Value as Lit,
};
use kaze::il::{Expr, RefScope, Value};
use kaze::stack::InstanceStack;

fn graph(signals: Vec<Signal>) -> Graph {
    Graph { modules: vec![], signals, instances: vec![] }
}

fn signal(bit_width: u32, data: SignalData) -> Signal {
    Signal { bit_width, data }
}

fn input(name: &str, bit_width: u32) -> Signal {
    signal(bit_width, SignalData::Input { name: name.to_string() })
}

/// A module that complements its input, and an instance of it; the input is driven as told.
fn inverter(driven: bool, output: &str) -> Graph {
    let mut outputs = Ports::new();
    outputs.insert("out".to_string(), 1);
    let mut driven_inputs = Ports::new();
    if driven {
        driven_inputs.insert("in".to_string(), 2);
    }
    let mut module = Module::new("inverter".to_string());
    module.outputs = outputs;
    Graph {
        modules: vec![module],
        signals: vec![
            input("in", 8),
            signal(8, SignalData::UnOp { source: 0, op: UnOp::Not }),
            input("a", 8),
            signal(8, SignalData::InstanceOutput { instance: 0, name: output.to_string() }),
        ],
        instances: vec![Instance { instantiated_module: 0, driven_inputs }],
    }
}

#[test]
fn faults_of_searches() {
    let top = InstanceStack::new();
    let fault = |g: &Graph, signal: usize, limit: u32| {
        Compiler::new(g).search_fault(signal, &InstanceStack::new(), limit)
    };
    let undriven = graph(vec![
        signal(1, SignalData::Reg { next: None }),
        signal(1, SignalData::UnOp { source: 0, op: UnOp::Not }),
        signal(1, SignalData::Reg { next: Some(1) }),
    ]);
    assert_eq!(fault(&undriven, 2, 10), Some(SearchFault::UndrivenRegister));
    assert_eq!(fault(&undriven, 3, 10), Some(SearchFault::NoSignal));
    assert_eq!(fault(&undriven, 2, 2), Some(SearchFault::TooDeep));
    assert_eq!(fault(&undriven, 2, 0), Some(SearchFault::TooDeep));
    assert_eq!(fault(&inverter(false, "out"), 3, 10), Some(SearchFault::UndrivenInput));
    assert_eq!(fault(&inverter(true, "none"), 3, 10), Some(SearchFault::NoOutput));
    assert_eq!(fault(&inverter(true, "out"), 3, 10), None);
    assert_eq!(fault(&inverter(true, "out"), 3, 4), None);
    assert_eq!(fault(&inverter(true, "out"), 3, 3), Some(SearchFault::TooDeep));
    // A loop of operands never ends.
    let circle = graph(vec![signal(1, SignalData::UnOp { source: 0, op: UnOp::Not })]);
    assert_eq!(fault(&circle, 0, 1000), Some(SearchFault::TooDeep));
    // A register that was found before is not followed.
    let stored = graph(vec![signal(1, SignalData::Reg { next: Some(0) })]);
    let mut c = Compiler::new(&stored);
    assert_eq!(c.search_fault(0, &top, 2), None);
    assert_eq!(c.search_fault(0, &top, 1), Some(SearchFault::TooDeep));
    assert_eq!(c.reg_names.len(), 0);
    c.gather_regs(0, &top);
    assert_eq!(c.search_fault(0, &top, 1), None);
}

#[test]
fn messages_of_faults() {
    assert_eq!(SearchFault::UndrivenRegister.message(), "Discovered undriven register(s)");
    assert_eq!(SearchFault::UndrivenInput.message(), "Discovered undriven input(s)");
    assert_eq!(SearchFault::NoSignal.message(), "Discovered a signal that does not exist");
    assert_eq!(SearchFault::NoOutput.message(), "Discovered an output that does not exist");
    assert_eq!(SearchFault::TooDeep.message(), "Discovered too many signals in a row");
}

#[test]
fn signals_that_can_be_compiled() {
    let top = InstanceStack::new();
    let g = inverter(true, "out");
    let mut c = Compiler::new(&g);
    assert!(c.can_compile(3, &top, 4));
    assert!(!c.can_compile(3, &top, 3));
    c.compile_signal(3, &top);
    assert!(c.can_compile(3, &top, 1));
    assert!(!c.can_compile(4, &top, 10));
    assert!(!Compiler::new(&inverter(false, "out")).can_compile(3, &top, 10));
    assert!(!Compiler::new(&inverter(true, "none")).can_compile(3, &top, 10));
    let stored = graph(vec![signal(1, SignalData::Reg { next: Some(0) })]);
    let mut c = Compiler::new(&stored);
    assert!(!c.can_compile(0, &top, 10));
    c.gather_regs(0, &top);
    assert!(c.can_compile(0, &top, 10));
    // Too many temporaries: one for the conversion and two for each further copy.
    let many = graph(vec![
        input("a", 1),
        signal(2, SignalData::Repeat { source: 0, count: 0x8000_0000 }),
        signal(2, SignalData::Repeat { source: 0, count: 0x8000_0001 }),
    ]);
    assert!(many.is_sized(1));
    assert!(Compiler::new(&many).can_compile(1, &top, 10));
    assert!(!Compiler::new(&many).can_compile(2, &top, 10));
}

#[test]
fn signals_out_of_reach_do_not_matter() {
    let top = InstanceStack::new();
    let g = graph(vec![
        input("a", 32),
        input("b", 0),
        signal(8, SignalData::UnOp { source: 77, op: UnOp::Not }),
    ]);
    assert!(!g.is_wf());
    let mut c = Compiler::new(&g);
    assert!(c.can_compile(0, &top, 10));
    assert!(!c.can_compile(1, &top, 10));
    assert!(!c.can_compile(2, &top, 10));
    assert_eq!(
        c.compile_signal(0, &top),
        Expr::Ref { name: "a".to_string(), scope: RefScope::Member }
    );
}

#[test]
fn single_bits_are_set_by_any_literal_but_zero() {
    let top = InstanceStack::new();
    let lit = |width: u32, value: Lit| signal(width, SignalData::Lit { value });
    let g = graph(vec![
        lit(1, Lit::U32(2)),
        lit(1, Lit::U128(1 << 100)),
        lit(1, Lit::U64(0)),
        lit(8, Lit::U64(0x1_0000_0102)),
    ]);
    let mut c = Compiler::new(&g);
    assert_eq!(c.compile_signal(0, &top), Expr::Value { value: Value::Bool(true) });
    assert_eq!(c.compile_signal(1, &top), Expr::Value { value: Value::Bool(true) });
    assert_eq!(c.compile_signal(2, &top), Expr::Value { value: Value::Bool(false) });
    assert_eq!(c.compile_signal(3, &top), Expr::Value { value: Value::U32(0x102) });
}

#[test]
fn crossing_an_instance_takes_no_temporary() {
    let top = InstanceStack::new();
    let inside = top.push(0);
    let g = inverter(true, "out");
    let mut c = Compiler::new(&g);
    let outside = c.compile_signal(2, &top);
    let taken = c.prop_assignments.len();
    assert_eq!(c.compile_signal(0, &inside), outside);
    assert_eq!(c.prop_assignments.len(), taken);
    let output = c.compile_signal(3, &top);
    let taken = c.prop_assignments.len();
    assert_eq!(c.compile_signal(1, &inside), output);
    assert_eq!(c.prop_assignments.len(), taken);
}

#[test]
fn names_of_temporaries_are_not_used_again() {
    let top = InstanceStack::new();
    let g = graph(vec![
        input("a", 8),
        signal(8, SignalData::UnOp { source: 0, op: UnOp::Not }),
    ]);
    let mut c = Compiler::new(&g);
    assert_eq!(
        c.compile_signal(0, &top),
        Expr::Ref { name: "__temp_0".to_string(), scope: RefScope::Local }
    );
    c.prop_assignments.clear();
    assert_eq!(
        c.compile_signal(1, &top),
        Expr::Ref { name: "__temp_2".to_string(), scope: RefScope::Local }
    );
    assert_eq!(c.prop_assignments.len(), 2);
    assert_eq!(c.prop_assignments[0].target_name, "__temp_1");
}

#[test]
fn masks() {
    assert_eq!(low_bits(0), 0);
    assert_eq!(low_bits(1), 1);
    assert_eq!(low_bits(8), 255);
    assert_eq!(low_bits(127), u128::MAX >> 1);
    assert_eq!(low_bits(128), u128::MAX);
}

#[test]
fn well_formed_graphs() {
    assert!(graph(vec![]).is_wf());
    assert!(inverter(true, "out").is_wf());
    assert!(inverter(false, "out").is_wf());
    assert!(!inverter(true, "none").is_wf());
    let wf = |bit_width: u32, data: SignalData| {
        graph(vec![input("a", 8), input("b", 8), input("c", 1), signal(bit_width, data)])
            .is_signal_wf(3)
    };
    assert!(wf(8, SignalData::Lit { value: Lit::U32(255) }));
    assert!(!wf(8, SignalData::Lit { value: Lit::U32(256) }));
    assert!(!wf(0, SignalData::Lit { value: Lit::U32(0) }));
    assert!(!wf(129, SignalData::Input { name: "d".to_string() }));
    assert!(wf(8, SignalData::Reg { next: None }));
    assert!(wf(8, SignalData::Reg { next: Some(0) }));
    assert!(!wf(8, SignalData::Reg { next: Some(2) }));
    assert!(!wf(8, SignalData::UnOp { source: 2, op: UnOp::Not }));
    assert!(wf(8, SignalData::BinOp { lhs: 0, rhs: 1, op: BinOp::Add }));
    assert!(!wf(8, SignalData::BinOp { lhs: 0, rhs: 2, op: BinOp::Add }));
    assert!(wf(1, SignalData::BinOp { lhs: 0, rhs: 1, op: BinOp::LessThan }));
    assert!(!wf(8, SignalData::BinOp { lhs: 0, rhs: 1, op: BinOp::LessThan }));
    assert!(wf(3, SignalData::Bits { source: 0, range_high: 7, range_low: 5 }));
    assert!(!wf(3, SignalData::Bits { source: 0, range_high: 8, range_low: 6 }));
    assert!(!wf(3, SignalData::Bits { source: 0, range_high: 5, range_low: 7 }));
    assert!(wf(16, SignalData::Repeat { source: 0, count: 2 }));
    assert!(!wf(8, SignalData::Repeat { source: 0, count: 0 }));
    assert!(!wf(8, SignalData::Repeat { source: 0, count: 0x2000_0001 }));
    assert!(wf(9, SignalData::Concat { lhs: 2, rhs: 1 }));
    assert!(!wf(8, SignalData::Concat { lhs: 2, rhs: 1 }));
    assert!(wf(8, SignalData::Mux { a: 0, b: 1, sel: 2 }));
    assert!(!wf(8, SignalData::Mux { a: 0, b: 1, sel: 1 }));
}
