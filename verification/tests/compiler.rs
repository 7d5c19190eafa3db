use kaze::compiler::Compiler;
use kaze::graph::{
    BinOp as Op, Graph, Instance, Module, Ports, Signal, SignalData, UnOp as Un, Value as Lit,
};
use kaze::il::{Assignment, BinOp, Expr, RefScope, TargetScope, UnOp, Value, ValueType};
use kaze::stack::InstanceStack;

fn graph(signals: Vec<Signal>) -> Graph {
    Graph { modules: vec![], signals, instances: vec![] }
}

fn signal(bit_width: u32, data: SignalData) -> Signal {
    Signal { bit_width, data }
}

fn input(name: &str, bit_width: u32) -> Signal {
    signal(bit_width, SignalData::Input { name: name.to_string() })
}

fn local(n: u32) -> Expr {
    Expr::Ref { name: format!("__temp_{}", n), scope: RefScope::Local }
}

fn member(name: &str) -> Expr {
    Expr::Ref { name: name.to_string(), scope: RefScope::Member }
}

fn value(value: Value) -> Expr {
    Expr::Value { value }
}

fn binary(lhs: Expr, op: BinOp, rhs: Expr) -> Expr {
    Expr::BinOp { lhs: Box::new(lhs), rhs: Box::new(rhs), op }
}

fn cast(source: Expr, target_type: ValueType) -> Expr {
    Expr::Cast { source: Box::new(source), target_type }
}

/// The assignments of `exprs` to the temporaries from 0 up.
fn temps(exprs: Vec<Expr>) -> Vec<Assignment> {
    let mut assignments = vec![];
    for expr in exprs {
        assignments.push(Assignment {
            target_scope: TargetScope::Local,
            target_name: format!("__temp_{}", assignments.len()),
            expr,
        });
    }
    assignments
}

fn check(g: &Graph, signal: usize, expr: Expr, assigned: Vec<Expr>) {
    let top = InstanceStack::new();
    let mut c = Compiler::new(g);
    c.gather_regs(signal, &top);
    assert_eq!(c.compile_signal(signal, &top), expr);
    assert_eq!(c.prop_assignments, temps(assigned));
}

fn lit(width: u32, value: Lit) -> Signal {
    signal(width, SignalData::Lit { value })
}

#[test]
fn literals_take_the_type_of_their_width() {
    let g = graph(vec![
        lit(1, Lit::Bool(true)),
        lit(1, Lit::U32(0)),
        lit(4, Lit::U32(5)),
        lit(40, Lit::U32(7)),
        lit(32, Lit::U128(9)),
        lit(100, Lit::U64(11)),
        lit(128, Lit::U128(u128::MAX)),
        lit(2, Lit::Bool(true)),
    ]);
    let expected = [
        Value::Bool(true),
        Value::Bool(false),
        Value::U32(5),
        Value::U64(7),
        Value::U32(9),
        Value::U128(11),
        Value::U128(u128::MAX),
        Value::U32(1),
    ];
    for i in 0..expected.len() {
        check(&g, i, value(expected[i]), vec![]);
    }
}

#[test]
fn inputs_at_the_top_are_masked() {
    let g = graph(vec![input("a", 1), input("b", 32), input("c", 12), input("d", 65)]);
    check(&g, 0, member("a"), vec![]);
    check(&g, 1, member("b"), vec![]);
    check(
        &g,
        2,
        local(0),
        vec![binary(member("c"), BinOp::BitAnd, value(Value::U32(0xfff)))],
    );
    check(
        &g,
        3,
        local(0),
        vec![binary(member("d"), BinOp::BitAnd, value(Value::U128((1u128 << 65) - 1)))],
    );
}

#[test]
fn complements_are_masked() {
    let g = graph(vec![
        input("a", 1),
        signal(1, SignalData::UnOp { source: 0, op: Un::Not }),
        lit(33, Lit::U32(1)),
        signal(33, SignalData::UnOp { source: 2, op: Un::Not }),
    ]);
    let not = Expr::UnOp { source: Box::new(member("a")), op: UnOp::Not };
    check(&g, 1, local(0), vec![not]);
    let not = Expr::UnOp { source: Box::new(value(Value::U64(1))), op: UnOp::Not };
    check(
        &g,
        3,
        local(1),
        vec![not, binary(local(0), BinOp::BitAnd, value(Value::U64((1 << 33) - 1)))],
    );
}

#[test]
fn binary_operations() {
    let ops = [
        (Op::Add, BinOp::Add),
        (Op::BitAnd, BinOp::BitAnd),
        (Op::BitOr, BinOp::BitOr),
        (Op::BitXor, BinOp::BitXor),
        (Op::Equal, BinOp::Equal),
        (Op::NotEqual, BinOp::NotEqual),
        (Op::LessThan, BinOp::LessThan),
        (Op::LessThanEqual, BinOp::LessThanEqual),
        (Op::GreaterThan, BinOp::GreaterThan),
        (Op::GreaterThanEqual, BinOp::GreaterThanEqual),
    ];
    for i in 0..ops.len() {
        let (op, il_op) = ops[i];
        let width = if i < 4 { 32 } else { 1 };
        let g = graph(vec![
            input("a", 32),
            input("b", 32),
            signal(width, SignalData::BinOp { lhs: 0, rhs: 1, op }),
        ]);
        check(&g, 2, local(0), vec![binary(member("a"), il_op, member("b"))]);
    }
}

#[test]
fn sums_of_single_bits_are_computed_in_u32() {
    let g = graph(vec![
        input("a", 1),
        input("b", 1),
        signal(1, SignalData::BinOp { lhs: 0, rhs: 1, op: Op::Add }),
    ]);
    check(
        &g,
        2,
        local(4),
        vec![
            cast(member("a"), ValueType::U32),
            cast(member("b"), ValueType::U32),
            binary(local(0), BinOp::Add, local(1)),
            binary(local(2), BinOp::BitAnd, value(Value::U32(1))),
            binary(local(3), BinOp::NotEqual, value(Value::U32(0))),
        ],
    );
}

#[test]
fn bit_ranges() {
    let g = graph(vec![
        input("a", 64),
        signal(8, SignalData::Bits { source: 0, range_high: 15, range_low: 8 }),
        signal(1, SignalData::Bits { source: 0, range_high: 0, range_low: 0 }),
        signal(64, SignalData::Bits { source: 0, range_high: 63, range_low: 0 }),
    ]);
    check(
        &g,
        1,
        local(2),
        vec![
            binary(member("a"), BinOp::Shr, value(Value::U32(8))),
            cast(local(0), ValueType::U32),
            binary(local(1), BinOp::BitAnd, value(Value::U32(0xff))),
        ],
    );
    check(
        &g,
        2,
        local(1),
        vec![
            binary(member("a"), BinOp::BitAnd, value(Value::U64(1))),
            binary(local(0), BinOp::NotEqual, value(Value::U64(0))),
        ],
    );
    check(&g, 3, member("a"), vec![]);
}

#[test]
fn repetitions() {
    let g = graph(vec![
        input("a", 1),
        signal(3, SignalData::Repeat { source: 0, count: 3 }),
        signal(1, SignalData::Repeat { source: 0, count: 1 }),
    ]);
    check(
        &g,
        1,
        local(4),
        vec![
            cast(member("a"), ValueType::U32),
            binary(local(0), BinOp::Shl, value(Value::U32(1))),
            binary(local(0), BinOp::BitOr, local(1)),
            binary(local(0), BinOp::Shl, value(Value::U32(2))),
            binary(local(2), BinOp::BitOr, local(3)),
        ],
    );
    check(&g, 2, member("a"), vec![]);
}

#[test]
fn concatenations() {
    let g = graph(vec![
        input("a", 1),
        input("b", 32),
        signal(33, SignalData::Concat { lhs: 0, rhs: 1 }),
    ]);
    check(
        &g,
        2,
        local(3),
        vec![
            cast(member("a"), ValueType::U64),
            cast(member("b"), ValueType::U64),
            binary(local(0), BinOp::Shl, value(Value::U32(32))),
            binary(local(2), BinOp::BitOr, local(1)),
        ],
    );
}

#[test]
fn multiplexers() {
    let g = graph(vec![
        input("a", 32),
        input("b", 32),
        input("s", 1),
        signal(32, SignalData::Mux { a: 0, b: 1, sel: 2 }),
    ]);
    let ternary = Expr::Ternary {
        lhs: Box::new(member("b")),
        rhs: Box::new(member("a")),
        cond: Box::new(member("s")),
    };
    check(&g, 3, local(0), vec![ternary]);
}

#[test]
fn signals_are_compiled_once() {
    let g = graph(vec![
        input("a", 4),
        signal(4, SignalData::BinOp { lhs: 0, rhs: 0, op: Op::BitXor }),
    ]);
    let top = InstanceStack::new();
    let mut c = Compiler::new(&g);
    let first = c.compile_signal(1, &top);
    let count = c.prop_assignments.len();
    assert_eq!(count, 3);
    assert_eq!(c.compile_signal(1, &top), first);
    assert_eq!(c.compile_signal(0, &top), local(0));
    assert_eq!(c.prop_assignments.len(), count);
}

fn ports(entries: &[(&str, usize)]) -> Ports {
    let mut ports = Ports::new();
    for (name, signal) in entries {
        ports.insert(name.to_string(), *signal);
    }
    ports
}

/// A top module with two instances of a module that delays its input by one cycle; the
/// first instance's output drives the second instance's input.
fn delay_line() -> Graph {
    Graph {
        modules: vec![
            Module { name: "delay".to_string(), outputs: ports(&[("q", 1)]) },
            Module { name: "top".to_string(), outputs: ports(&[("out", 4)]) },
        ],
        signals: vec![
            input("d", 8),
            signal(8, SignalData::Reg { next: Some(0) }),
            input("in", 8),
            signal(8, SignalData::InstanceOutput { instance: 0, name: "q".to_string() }),
            signal(8, SignalData::InstanceOutput { instance: 1, name: "q".to_string() }),
        ],
        instances: vec![
            Instance { instantiated_module: 0, driven_inputs: ports(&[("d", 2)]) },
            Instance { instantiated_module: 0, driven_inputs: ports(&[("d", 3)]) },
        ],
    }
}

#[test]
fn registers_are_named_per_instance() {
    let g = delay_line();
    let top = InstanceStack::new();
    let mut c = Compiler::new(&g);
    c.gather_regs(4, &top);
    assert_eq!(c.reg_names.len(), 2);
    let second = c.reg_names.get(&top.push(1), 1).unwrap();
    assert_eq!(second.value_name, "__reg0");
    assert_eq!(second.next_name, "__reg0_next");
    let first = c.reg_names.get(&top.push(0), 1).unwrap();
    assert_eq!(first.value_name, "__reg1");
    assert_eq!(first.next_name, "__reg1_next");
    assert!(c.reg_names.get(&top, 1).is_none());

    // Searching again finds nothing new.
    c.gather_regs(4, &top);
    c.gather_regs(3, &top);
    assert_eq!(c.reg_names.len(), 2);

    assert_eq!(c.compile_signal(4, &top), member("__reg0"));
    // What the registers take next.
    assert_eq!(c.compile_signal(0, &top.push(1)), member("__reg1"));
    assert!(c.prop_assignments.is_empty());
    assert_eq!(c.compile_signal(0, &top.push(0)), local(0));
    assert_eq!(
        c.prop_assignments,
        temps(vec![binary(member("in"), BinOp::BitAnd, value(Value::U32(0xff)))])
    );
}

#[test]
fn registers_may_depend_on_themselves() {
    // A counter: the register takes its own value plus one.
    let g = graph(vec![
        signal(32, SignalData::Reg { next: Some(2) }),
        lit(32, Lit::U32(1)),
        signal(32, SignalData::BinOp { lhs: 0, rhs: 1, op: Op::Add }),
    ]);
    let top = InstanceStack::new();
    let mut c = Compiler::new(&g);
    c.gather_regs(2, &top);
    assert_eq!(c.reg_names.len(), 1);
    assert_eq!(c.compile_signal(0, &top), member("__reg0"));
    assert_eq!(c.compile_signal(2, &top), local(0));
    assert_eq!(
        c.prop_assignments,
        temps(vec![binary(member("__reg0"), BinOp::Add, value(Value::U32(1)))])
    );
}

#[test]
fn multiplexers_are_searched_from_the_selector() {
    let g = graph(vec![
        signal(1, SignalData::Reg { next: Some(0) }),
        signal(1, SignalData::Reg { next: Some(1) }),
        signal(1, SignalData::Reg { next: Some(2) }),
        signal(1, SignalData::Mux { a: 0, b: 1, sel: 2 }),
        signal(2, SignalData::Concat { lhs: 3, rhs: 0 }),
        signal(4, SignalData::Repeat { source: 4, count: 2 }),
        signal(3, SignalData::Bits { source: 5, range_high: 2, range_low: 0 }),
        signal(3, SignalData::UnOp { source: 6, op: Un::Not }),
    ]);
    let top = InstanceStack::new();
    let mut c = Compiler::new(&g);
    c.gather_regs(7, &top);
    assert_eq!(c.reg_names.get(&top, 2).unwrap().value_name, "__reg0");
    assert_eq!(c.reg_names.get(&top, 1).unwrap().value_name, "__reg1");
    assert_eq!(c.reg_names.get(&top, 0).unwrap().value_name, "__reg2");
}

/// Carries out the compiled code and gives the value of its expression.
fn simulate(g: &Graph, signal: usize, members: &[(&str, Value)]) -> Value {
    let top = InstanceStack::new();
    let mut c = Compiler::new(g);
    c.gather_regs(signal, &top);
    let expr = c.compile_signal(signal, &top);
    let mut locals: Vec<(String, Value)> = vec![];
    for assignment in &c.prop_assignments {
        let result = eval(&assignment.expr, members, &locals);
        locals.push((assignment.target_name.clone(), result));
    }
    eval(&expr, members, &locals)
}

fn word(value: Value) -> (ValueType, u128) {
    match value {
        Value::Bool(value) => (ValueType::Bool, value as u128),
        Value::U32(value) => (ValueType::U32, value as u128),
        Value::U64(value) => (ValueType::U64, value as u128),
        Value::U128(value) => (ValueType::U128, value),
    }
}

fn of(value_type: ValueType, word: u128) -> Value {
    match value_type {
        ValueType::Bool => Value::Bool(word & 1 == 1),
        ValueType::U32 => Value::U32(word as u32),
        ValueType::U64 => Value::U64(word as u64),
        ValueType::U128 => Value::U128(word),
    }
}

fn eval(expr: &Expr, members: &[(&str, Value)], locals: &[(String, Value)]) -> Value {
    match expr {
        Expr::Value { value } => *value,
        Expr::Ref { name, scope: RefScope::Member } => {
            members.iter().find(|(n, _)| n == name).unwrap().1
        }
        Expr::Ref { name, scope: RefScope::Local } => {
            locals.iter().find(|(n, _)| n == name).unwrap().1
        }
        Expr::UnOp { source, op: UnOp::Not } => {
            let (value_type, word) = word(eval(source, members, locals));
            of(value_type, !word)
        }
        Expr::BinOp { lhs, rhs, op } => {
            let (lhs_type, a) = word(eval(lhs, members, locals));
            let (rhs_type, b) = word(eval(rhs, members, locals));
            if *op == BinOp::Shl || *op == BinOp::Shr {
                assert!(b < lhs_type.bit_width() as u128);
            } else {
                assert_eq!(lhs_type, rhs_type);
            }
            match op {
                BinOp::Add => of(lhs_type, a.wrapping_add(b)),
                BinOp::BitAnd => of(lhs_type, a & b),
                BinOp::BitOr => of(lhs_type, a | b),
                BinOp::BitXor => of(lhs_type, a ^ b),
                BinOp::Equal => Value::Bool(a == b),
                BinOp::NotEqual => Value::Bool(a != b),
                BinOp::LessThan => Value::Bool(a < b),
                BinOp::LessThanEqual => Value::Bool(a <= b),
                BinOp::GreaterThan => Value::Bool(a > b),
                BinOp::GreaterThanEqual => Value::Bool(a >= b),
                BinOp::Shl => of(lhs_type, a << b),
                BinOp::Shr => of(lhs_type, a >> b),
            }
        }
        Expr::Ternary { lhs, rhs, cond } => match eval(cond, members, locals) {
            Value::Bool(true) => eval(lhs, members, locals),
            Value::Bool(false) => eval(rhs, members, locals),
            _ => panic!("not a condition"),
        },
        Expr::Cast { source, target_type } => {
            of(*target_type, word(eval(source, members, locals)).1)
        }
    }
}

#[test]
fn compiled_code_computes_sums() {
    let g = graph(vec![
        input("a", 7),
        input("b", 7),
        signal(7, SignalData::BinOp { lhs: 0, rhs: 1, op: Op::Add }),
        signal(1, SignalData::BinOp { lhs: 2, rhs: 1, op: Op::LessThan }),
    ]);
    // Bits above the width of an input are cut off.
    let members = [("a", Value::U32(100)), ("b", Value::U32(60 + 128))];
    assert_eq!(simulate(&g, 2, &members), Value::U32((100 + 60) % 128));
    assert_eq!(simulate(&g, 3, &members), Value::Bool(true));
}

#[test]
fn compiled_code_puts_bits_in_place() {
    let g = graph(vec![
        input("a", 5),
        signal(125, SignalData::Repeat { source: 0, count: 25 }),
        lit(3, Lit::U32(5)),
        signal(128, SignalData::Concat { lhs: 2, rhs: 1 }),
        signal(9, SignalData::Bits { source: 3, range_high: 127, range_low: 119 }),
        signal(9, SignalData::UnOp { source: 4, op: Un::Not }),
    ]);
    let mut copies: u128 = 0;
    for i in 0..25 {
        copies |= 0b10110 << (5 * i);
    }
    let members = [("a", Value::U32(0b10110))];
    assert_eq!(simulate(&g, 1, &members), Value::U128(copies));
    let joined = (5 << 125) | copies;
    assert_eq!(simulate(&g, 3, &members), Value::U128(joined));
    assert_eq!(simulate(&g, 4, &members), Value::U32((joined >> 119) as u32));
    assert_eq!(simulate(&g, 5, &members), Value::U32(!((joined >> 119) as u32) & 0x1ff));
}

#[test]
fn compiled_code_selects() {
    let g = graph(vec![
        input("a", 33),
        input("b", 33),
        input("s", 1),
        signal(33, SignalData::Mux { a: 0, b: 1, sel: 2 }),
    ]);
    for (s, expected) in [(false, 3), (true, 4)] {
        let members = [("a", Value::U64(3)), ("b", Value::U64(4)), ("s", Value::Bool(s))];
        assert_eq!(simulate(&g, 3, &members), Value::U64(expected));
    }
}

#[test]
fn compiled_code_adds_single_bits() {
    let g = graph(vec![
        input("a", 1),
        input("b", 1),
        signal(1, SignalData::BinOp { lhs: 0, rhs: 1, op: Op::Add }),
    ]);
    for (a, b) in [(false, false), (false, true), (true, false), (true, true)] {
        let members = [("a", Value::Bool(a)), ("b", Value::Bool(b))];
        assert_eq!(simulate(&g, 2, &members), Value::Bool(a != b));
    }
}

#[test]
fn compiled_code_reads_registers() {
    let g = delay_line();
    let members =
        [("in", Value::U32(1)), ("__reg0", Value::U32(2)), ("__reg1", Value::U32(3))];
    assert_eq!(simulate(&g, 4, &members), Value::U32(2));
}

#[test]
fn widest_repetition_takes_255_temporaries() {
    let g = graph(vec![
        input("a", 1),
        signal(128, SignalData::Repeat { source: 0, count: 128 }),
    ]);
    let top = InstanceStack::new();
    let mut c = Compiler::new(&g);
    assert_eq!(c.compile_signal(1, &top), local(254));
    assert_eq!(c.prop_assignments.len(), 255);
    assert_eq!(simulate(&g, 1, &[("a", Value::Bool(true))]), Value::U128(u128::MAX));
    assert_eq!(simulate(&g, 1, &[("a", Value::Bool(false))]), Value::U128(0));
}

#[test]
fn temporaries_are_assigned_once_in_order() {
    let g = delay_line();
    let top = InstanceStack::new();
    let mut c = Compiler::new(&g);
    c.gather_regs(4, &top);
    for (signal, stack) in [(4, top.clone()), (2, top.clone()), (0, top.push(0)), (0, top.push(1))]
    {
        c.compile_signal(signal, &stack);
    }
    for (i, assignment) in c.prop_assignments.iter().enumerate() {
        assert_eq!(assignment.target_name, format!("__temp_{}", i));
        assert_eq!(assignment.target_scope, TargetScope::Local);
    }
}

#[test]
fn names_of_many_registers_differ() {
    // A shift register of 12 stages.
    let mut signals = vec![input("in", 1)];
    for i in 0..12 {
        signals.push(signal(1, SignalData::Reg { next: Some(i) }));
    }
    let g = graph(signals);
    let top = InstanceStack::new();
    let mut c = Compiler::new(&g);
    c.gather_regs(12, &top);
    assert_eq!(c.reg_names.len(), 12);
    for i in 1..13 {
        let names = c.reg_names.get(&top, i).unwrap();
        assert_eq!(names.value_name, format!("__reg{}", 12 - i));
        assert_eq!(names.next_name, format!("__reg{}_next", 12 - i));
    }
    assert!(!c.reg_names.contains_key(&top, 0));
}

#[test]
fn masking_again_keeps_the_value() {
    for width in [0u32, 1, 7, 31] {
        let g = graph(vec![]);
        let mut c = Compiler::new(&g);
        let once = c.gen_mask(member("a"), width, ValueType::U32);
        let twice = c.gen_mask(once.clone(), width, ValueType::U32);
        let mask = (1u32 << width) - 1;
        assert_eq!((&once, &twice), (&local(0), &local(1)));
        assert_eq!(
            c.prop_assignments,
            temps(vec![
                binary(member("a"), BinOp::BitAnd, value(Value::U32(mask))),
                binary(local(0), BinOp::BitAnd, value(Value::U32(mask))),
            ])
        );
        let members = [("a", Value::U32(0xdead_beef))];
        let mut locals = vec![];
        for assignment in &c.prop_assignments {
            let worth = eval(&assignment.expr, &members, &locals);
            locals.push((assignment.target_name.clone(), worth));
        }
        assert_eq!(eval(&once, &members, &locals), Value::U32(0xdead_beef & mask));
        assert_eq!(eval(&twice, &members, &locals), Value::U32(0xdead_beef & mask));
    }
    let g = graph(vec![]);
    let mut c = Compiler::new(&g);
    assert_eq!(c.gen_mask(member("a"), 32, ValueType::U32), member("a"));
    assert_eq!(c.gen_mask(member("a"), 1, ValueType::Bool), member("a"));
    assert!(c.prop_assignments.is_empty());
}

#[test]
fn temporaries_get_new_names_after_edits() {
    let g = graph(vec![input("a", 8)]);
    let mut c = Compiler::new(&g);
    assert_eq!(c.gen_temp(member("a")), local(0));
    c.prop_assignments.clear();
    assert_eq!(c.gen_temp(member("a")), local(1));
    c.compile_signal(0, &InstanceStack::new());
    c.prop_assignments.clear();
    assert_eq!(c.gen_temp(member("a")), local(3));
    assert_eq!(c.prop_assignments.len(), 1);
}

#[test]
fn conversions_keep_the_low_bits() {
    let word_of = |from: Value, source: ValueType, target: ValueType| {
        let g = graph(vec![]);
        let mut c = Compiler::new(&g);
        let expr = c.gen_cast(member("a"), source, target);
        let members = [("a", from)];
        let mut locals = vec![];
        for assignment in &c.prop_assignments {
            let worth = eval(&assignment.expr, &members, &locals);
            locals.push((assignment.target_name.clone(), worth));
        }
        eval(&expr, &members, &locals)
    };
    let (b, u32t, u64t) = (ValueType::Bool, ValueType::U32, ValueType::U64);
    assert_eq!(word_of(Value::U32(6), u32t, b), Value::Bool(false));
    assert_eq!(word_of(Value::U32(7), u32t, b), Value::Bool(true));
    assert_eq!(word_of(Value::Bool(true), b, u64t), Value::U64(1));
    assert_eq!(word_of(Value::U64(0x1_0000_0005), u64t, u32t), Value::U32(5));
    assert_eq!(word_of(Value::U32(9), u32t, u32t), Value::U32(9));
}

#[test]
fn shifts_by_nothing_are_left_out() {
    let g = graph(vec![]);
    let mut c = Compiler::new(&g);
    assert_eq!(c.gen_shift_left(member("a"), 0), member("a"));
    assert_eq!(c.gen_shift_right(member("a"), 0), member("a"));
    assert_eq!(c.gen_shift_left(member("a"), 3), local(0));
    assert_eq!(c.gen_shift_right(local(0), 2), local(1));
    assert_eq!(
        c.prop_assignments,
        temps(vec![
            binary(member("a"), BinOp::Shl, value(Value::U32(3))),
            binary(local(0), BinOp::Shr, value(Value::U32(2))),
        ])
    );
}
