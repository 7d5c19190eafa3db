//! The compiler that lowers the signals of a module graph to expressions and assignments.

use crate::graph;
use crate::graph::{Graph, Node, SignalData};
use crate::growth::{combine_extends, joined_copies_temps, lower_grows};
use crate::il::{
    Assignment, AssignmentView, BinOp, Expr, ExprView, RefScope, TargetScope, UnOp, Value,
    ValueType,
};
use crate::lowering::{
    combine, converted, gather, gather_in_a_row, gathered, gathers, joined_copies, lower, lower_all,
    lower_bin_op, lower_bits, lower_concat, lower_one, lower_repeat, lower_three, lower_two,
    lower_un_op, lowered, lowers, masked, operands, shifted, temp, RegNamesView, State,
};
use crate::name::{reg_next_name_string, reg_value_name_string, temp_name_string};
use crate::scoped_map::ScopedMap;
use crate::stack::InstanceStack;
use vstd::prelude::*;

verus! {

/// The names of the two members that hold a register.
#[derive(PartialEq, Eq, Debug)]
pub struct RegNames {
    pub value_name: String,
    pub next_name: String,
}

impl View for RegNames {
    type V = RegNamesView;

    open spec fn view(&self) -> RegNamesView {
        RegNamesView { value_name: self.value_name@, next_name: self.next_name@ }
    }
}

impl Clone for RegNames {
    fn clone(&self) -> (copy: RegNames)
        ensures
            copy@ == self@,
    {
        RegNames { value_name: self.value_name.clone(), next_name: self.next_name.clone() }
    }
}

/// Register names stand for their characters.
pub proof fn register_names_stand_for_themselves(names: RegNames)
    ensures
        names@.value_name == names.value_name@,
        names@.next_name == names.next_name@,
{
}

/// What a sequence of assignments stands for.
pub open spec fn assignment_views(assignments: Seq<Assignment>) -> Seq<AssignmentView> {
    assignments.map_values(|assignment: Assignment| assignment@)
}

/// What a compiler keeps to itself of the signals that it compiled.
pub struct Memory {
    /// The expressions of the signals that were compiled.
    signal_exprs: ScopedMap<Expr>,
    /// The number of temporaries.
    local_count: u32,
}

impl Memory {
    /// The expressions of the signals that were compiled.
    pub closed spec fn exprs(self) -> Map<Node, ExprView> {
        self.signal_exprs@
    }

    /// The number of temporaries.
    pub closed spec fn temps(self) -> nat {
        self.local_count as nat
    }

    /// Whether the table of expressions is well formed.
    pub closed spec fn wf(self) -> bool {
        self.signal_exprs.wf()
    }
}

/// A compiler for the signals of one module graph.
pub struct Compiler<'a> {
    /// The graph whose signals this compiler takes.
    pub graph: &'a Graph,
    /// The names of the registers that were found.
    pub reg_names: ScopedMap<RegNames>,
    /// The assignments that the compiled signals need, in the order in which they take effect.
    pub prop_assignments: Vec<Assignment>,
    /// What was compiled.
    pub memory: Memory,
}

impl<'a> View for Compiler<'a> {
    type V = State;

    open spec fn view(&self) -> State {
        State {
            regs: self.reg_names@,
            exprs: self.memory.exprs(),
            assignments: assignment_views(self.prop_assignments@),
            temps: self.memory.temps(),
        }
    }
}

impl<'a> Compiler<'a> {
    /// Whether the tables of this compiler are well formed.
    pub open spec fn wf(self) -> bool {
        &&& self.reg_names.wf()
        &&& self.memory.wf()
    }

    /// A compiler stands for its register names and its assignments, one by one, besides what
    /// it keeps to itself. No more than its tables is asked of it.
    pub proof fn stands_for_what_it_holds(self)
        ensures
            self@.regs == self.reg_names@,
            self@.exprs == self.memory.exprs(),
            self@.temps == self.memory.temps(),
            self@.assignments.len() == self.prop_assignments@.len(),
            forall|i: int|
                0 <= i < self.prop_assignments@.len() ==> #[trigger] self@.assignments[i]
                    == self.prop_assignments@[i]@,
            self.wf() <==> self.reg_names.wf() && self.memory.wf(),
    {
    }

    /// Creates a compiler for the signals of `graph`.
    pub fn new(graph: &'a Graph) -> (compiler: Compiler<'a>)
        ensures
            compiler.wf(),
            compiler.graph == graph,
            compiler@ == State::empty(),
            compiler@.regs == Map::<Node, RegNamesView>::empty(),
            compiler@.exprs == Map::<Node, ExprView>::empty(),
            compiler@.assignments == Seq::<AssignmentView>::empty(),
            compiler@.temps == 0,
            compiler.prop_assignments@.len() == 0,
    {
        let compiler = Compiler {
            graph,
            reg_names: ScopedMap::new(),
            prop_assignments: Vec::new(),
            memory: Memory { signal_exprs: ScopedMap::new(), local_count: 0 },
        };
        assert(compiler@.assignments =~= State::empty().assignments);
        compiler
    }

    /// Returns the number of temporaries.
    pub(crate) fn temp_count(&self) -> (count: u32)
        ensures
            count == self@.temps,
    {
        self.memory.local_count
    }

    /// Whether `signal`, seen from `instance_stack`, was compiled.
    pub(crate) fn has_compiled(&self, signal: usize, instance_stack: &InstanceStack) -> (compiled:
        bool)
        requires
            self.wf(),
        ensures
            compiled == self@.exprs.contains_key(Node { path: instance_stack@, signal }),
    {
        self.memory.signal_exprs.contains_key(instance_stack, signal)
    }

    /// Assigns `expr` to a new temporary and returns a reference to that.
    pub fn gen_temp(&mut self, expr: Expr) -> (reference: Expr)
        requires
            old(self).wf(),
            temp(old(self)@, expr@).0.temps <= u32::MAX,
        ensures
            final(self).wf(),
            final(self).graph == old(self).graph,
            (final(self)@, reference@) == temp(old(self)@, expr@),
    {
        let target_name = temp_name_string(self.memory.local_count);
        self.memory.local_count += 1;
        self.prop_assignments.push(
            Assignment {
                target_scope: TargetScope::Local,
                target_name: target_name.clone(),
                expr,
            },
        );
        assert(self@.assignments =~= temp(old(self)@, expr@).0.assignments);
        Expr::Ref { scope: RefScope::Local, name: target_name }
    }

    /// Cuts `expr`, of type `target_type`, to its low `bit_width` bits.
    pub fn gen_mask(&mut self, expr: Expr, bit_width: u32, target_type: ValueType) -> (result: Expr)
        requires
            old(self).wf(),
            bit_width == target_type.bits() || (target_type != ValueType::Bool && bit_width
                < 128),
            masked(old(self)@, expr@, bit_width, target_type).0.temps <= u32::MAX,
        ensures
            final(self).wf(),
            final(self).graph == old(self).graph,
            (final(self)@, result@) == masked(old(self)@, expr@, bit_width, target_type),
    {
        if bit_width == target_type.bit_width() {
            return expr;
        }
        assert((1u128 << bit_width) >= 1) by (bit_vector)
            requires
                bit_width < 128,
        ;
        let mask = (1u128 << bit_width) - 1;
        // A single bit is as wide as its type and got no mask.
        let value = match target_type {
            ValueType::Bool => Value::Bool(true),
            ValueType::U32 => Value::U32(#[verifier::truncate] (mask as u32)),
            ValueType::U64 => Value::U64(#[verifier::truncate] (mask as u64)),
            ValueType::U128 => Value::U128(mask),
        };
        proof {
            reveal_with_fuel(Expr::tree, 2);
        }
        self.gen_temp(
            Expr::BinOp {
                lhs: Box::new(expr),
                rhs: Box::new(Expr::Value { value }),
                op: BinOp::BitAnd,
            },
        )
    }

    /// Shifts `expr` to the left.
    pub fn gen_shift_left(&mut self, expr: Expr, shift: u32) -> (result: Expr)
        requires
            old(self).wf(),
            shifted(old(self)@, expr@, shift, BinOp::Shl).0.temps <= u32::MAX,
        ensures
            final(self).wf(),
            final(self).graph == old(self).graph,
            (final(self)@, result@) == shifted(old(self)@, expr@, shift, BinOp::Shl),
    {
        if shift == 0 {
            return expr;
        }
        proof {
            reveal_with_fuel(Expr::tree, 2);
        }
        self.gen_temp(
            Expr::BinOp {
                lhs: Box::new(expr),
                rhs: Box::new(Expr::Value { value: Value::U32(shift) }),
                op: BinOp::Shl,
            },
        )
    }

    /// Shifts `expr` to the right.
    pub fn gen_shift_right(&mut self, expr: Expr, shift: u32) -> (result: Expr)
        requires
            old(self).wf(),
            shifted(old(self)@, expr@, shift, BinOp::Shr).0.temps <= u32::MAX,
        ensures
            final(self).wf(),
            final(self).graph == old(self).graph,
            (final(self)@, result@) == shifted(old(self)@, expr@, shift, BinOp::Shr),
    {
        if shift == 0 {
            return expr;
        }
        proof {
            reveal_with_fuel(Expr::tree, 2);
        }
        self.gen_temp(
            Expr::BinOp {
                lhs: Box::new(expr),
                rhs: Box::new(Expr::Value { value: Value::U32(shift) }),
                op: BinOp::Shr,
            },
        )
    }

    /// Converts `expr` from one type to another.
    pub fn gen_cast(
        &mut self,
        expr: Expr,
        source_type: ValueType,
        target_type: ValueType,
    ) -> (result: Expr)
        requires
            old(self).wf(),
            converted(old(self)@, expr@, source_type, target_type).0.temps <= u32::MAX,
        ensures
            final(self).wf(),
            final(self).graph == old(self).graph,
            (final(self)@, result@) == converted(old(self)@, expr@, source_type, target_type),
    {
        if source_type == target_type {
            return expr;
        }
        if target_type == ValueType::Bool {
            // The two types differ, so the source is not a single bit.
            let expr = self.gen_mask(expr, 1, source_type);
            let zero = match source_type {
                ValueType::Bool => Value::Bool(false),
                ValueType::U32 => Value::U32(0),
                ValueType::U64 => Value::U64(0),
                ValueType::U128 => Value::U128(0),
            };
            assert(0u128 as u32 == 0u32 && 0u128 as u64 == 0u64);
            proof {
                reveal_with_fuel(Expr::tree, 2);
            }
            return self.gen_temp(
                Expr::BinOp {
                    lhs: Box::new(expr),
                    rhs: Box::new(Expr::Value { value: zero }),
                    op: BinOp::NotEqual,
                },
            );
        }
        self.gen_temp(Expr::Cast { source: Box::new(expr), target_type })
    }

    /// Complements `source`, which is `bit_width` bits wide.
    fn compile_un_op(&mut self, source: Expr, op: graph::UnOp, bit_width: u32) -> (result: Expr)
        requires
            old(self).wf(),
            1 <= bit_width <= 128,
            lower_un_op(old(self)@, source@, bit_width).0.temps <= u32::MAX,
        ensures
            final(self).wf(),
            final(self).graph == old(self).graph,
            (final(self)@, result@) == lower_un_op(old(self)@, source@, bit_width),
    {
        let expr = self.gen_temp(
            Expr::UnOp {
                source: Box::new(source),
                op: match op {
                    graph::UnOp::Not => UnOp::Not,
                },
            },
        );
        let target_type = ValueType::from_bit_width(bit_width);
        self.gen_mask(expr, bit_width, target_type)
    }

    /// Applies `op` to operands of `source_width` bits; the result is `target_width` bits wide.
    fn compile_bin_op(
        &mut self,
        lhs: Expr,
        rhs: Expr,
        op: graph::BinOp,
        source_width: u32,
        target_width: u32,
    ) -> (result: Expr)
        requires
            old(self).wf(),
            1 <= source_width <= 128,
            1 <= target_width <= 128,
            lower_bin_op(old(self)@, lhs@, rhs@, op, source_width, target_width).0.temps
                <= u32::MAX,
        ensures
            final(self).wf(),
            final(self).graph == old(self).graph,
            (final(self)@, result@) == lower_bin_op(
                old(self)@,
                lhs@,
                rhs@,
                op,
                source_width,
                target_width,
            ),
    {
        let source_type = ValueType::from_bit_width(source_width);
        let op_input_type = match (op, source_type) {
            (graph::BinOp::Add, ValueType::Bool) => ValueType::U32,
            _ => source_type,
        };
        let lhs = self.gen_cast(lhs, source_type, op_input_type);
        let rhs = self.gen_cast(rhs, source_type, op_input_type);
        let expr = self.gen_temp(
            Expr::BinOp {
                lhs: Box::new(lhs),
                rhs: Box::new(rhs),
                op: match op {
                    graph::BinOp::Add => BinOp::Add,
                    graph::BinOp::BitAnd => BinOp::BitAnd,
                    graph::BinOp::BitOr => BinOp::BitOr,
                    graph::BinOp::BitXor => BinOp::BitXor,
                    graph::BinOp::Equal => BinOp::Equal,
                    graph::BinOp::NotEqual => BinOp::NotEqual,
                    graph::BinOp::LessThan => BinOp::LessThan,
                    graph::BinOp::LessThanEqual => BinOp::LessThanEqual,
                    graph::BinOp::GreaterThan => BinOp::GreaterThan,
                    graph::BinOp::GreaterThanEqual => BinOp::GreaterThanEqual,
                },
            },
        );
        let op_output_type = match op {
            graph::BinOp::Equal
            | graph::BinOp::NotEqual
            | graph::BinOp::LessThan
            | graph::BinOp::LessThanEqual
            | graph::BinOp::GreaterThan
            | graph::BinOp::GreaterThanEqual => ValueType::Bool,
            _ => op_input_type,
        };
        let target_type = ValueType::from_bit_width(target_width);
        let expr = self.gen_cast(expr, op_output_type, target_type);
        self.gen_mask(expr, target_width, target_type)
    }

    /// Takes `target_width` bits of `source`, which is `source_width` bits wide, from
    /// `range_low` up.
    fn compile_bits(
        &mut self,
        source: Expr,
        range_low: u32,
        source_width: u32,
        target_width: u32,
    ) -> (result: Expr)
        requires
            old(self).wf(),
            1 <= source_width <= 128,
            1 <= target_width <= 128,
            lower_bits(old(self)@, source@, range_low, source_width, target_width).0.temps
                <= u32::MAX,
        ensures
            final(self).wf(),
            final(self).graph == old(self).graph,
            (final(self)@, result@) == lower_bits(
                old(self)@,
                source@,
                range_low,
                source_width,
                target_width,
            ),
    {
        let expr = self.gen_shift_right(source, range_low);
        let target_type = ValueType::from_bit_width(target_width);
        let expr = self.gen_cast(expr, ValueType::from_bit_width(source_width), target_type);
        self.gen_mask(expr, target_width, target_type)
    }

    /// Puts `count` copies of `source` side by side.
    fn compile_repeat(
        &mut self,
        source: Expr,
        count: u32,
        source_width: u32,
        target_width: u32,
    ) -> (result: Expr)
        requires
            old(self).wf(),
            1 <= source_width <= 128,
            1 <= target_width <= 128,
            (count - 1) * source_width <= u32::MAX,
            lower_repeat(old(self)@, source@, count, source_width, target_width).0.temps
                <= u32::MAX,
        ensures
            final(self).wf(),
            final(self).graph == old(self).graph,
            (final(self)@, result@) == lower_repeat(
                old(self)@,
                source@,
                count,
                source_width,
                target_width,
            ),
    {
        proof {
            let (st, e) = converted(
                self@,
                source@,
                ValueType::holding(source_width),
                ValueType::holding(target_width),
            );
            joined_copies_temps(st, e, e, source_width, 0, count as nat);
        }
        let mut expr = self.gen_cast(
            source,
            ValueType::from_bit_width(source_width),
            ValueType::from_bit_width(target_width),
        );
        if count > 1 {
            let source_expr = expr.clone();
            let ghost st = self@;
            let mut i: u32 = 1;
            while i < count
                invariant
                    self.wf(),
                    self.graph == old(self).graph,
                    1 <= i <= count,
                    (count - 1) * source_width <= u32::MAX,
                    (self@, expr@) == joined_copies(
                        st,
                        source_expr@,
                        source_expr@,
                        source_width,
                        i as nat,
                    ),
                    joined_copies(
                        st,
                        source_expr@,
                        source_expr@,
                        source_width,
                        count as nat,
                    ).0.temps <= u32::MAX,
                decreases count - i,
            {
                assert(i * source_width <= (count - 1) * source_width) by (nonlinear_arith)
                    requires
                        i <= count - 1,
                ;
                proof {
                    joined_copies_temps(
                        st,
                        source_expr@,
                        source_expr@,
                        source_width,
                        (i + 1) as nat,
                        count as nat,
                    );
                }
                let rhs = self.gen_shift_left(source_expr.clone(), i * source_width);
                expr = self.gen_temp(
                    Expr::BinOp { lhs: Box::new(expr), rhs: Box::new(rhs), op: BinOp::BitOr },
                );
                i += 1;
            }
        }
        expr
    }

    /// Puts `lhs` above `rhs`.
    fn compile_concat(
        &mut self,
        lhs: Expr,
        rhs: Expr,
        lhs_width: u32,
        rhs_width: u32,
        target_width: u32,
    ) -> (result: Expr)
        requires
            old(self).wf(),
            1 <= lhs_width <= 128,
            1 <= rhs_width <= 128,
            1 <= target_width <= 128,
            lower_concat(old(self)@, lhs@, rhs@, lhs_width, rhs_width, target_width).0.temps
                <= u32::MAX,
        ensures
            final(self).wf(),
            final(self).graph == old(self).graph,
            (final(self)@, result@) == lower_concat(
                old(self)@,
                lhs@,
                rhs@,
                lhs_width,
                rhs_width,
                target_width,
            ),
    {
        let lhs_type = ValueType::from_bit_width(lhs_width);
        let rhs_type = ValueType::from_bit_width(rhs_width);
        let target_type = ValueType::from_bit_width(target_width);
        let lhs = self.gen_cast(lhs, lhs_type, target_type);
        let rhs = self.gen_cast(rhs, rhs_type, target_type);
        let lhs = self.gen_shift_left(lhs, rhs_width);
        self.gen_temp(Expr::BinOp { lhs: Box::new(lhs), rhs: Box::new(rhs), op: BinOp::BitOr })
    }

    /// Gives names to the registers that `signal`, seen from `instance_stack`, depends on,
    /// directly or through other registers, and that have none yet.
    pub fn gather_regs(&mut self, signal: usize, instance_stack: &InstanceStack)
        requires
            old(self).wf(),
            gathers(
                *old(self).graph,
                old(self)@.regs,
                Node { path: instance_stack@, signal },
            ),
        ensures
            final(self).wf(),
            final(self).graph == old(self).graph,
            final(self)@ == (State {
                regs: gathered(
                    *old(self).graph,
                    old(self)@.regs,
                    Node { path: instance_stack@, signal },
                ),
                ..old(self)@
            }),
    {
        let ghost node = Node { path: instance_stack@, signal };
        let ghost depth = choose|depth: nat|
            (#[trigger] gather(*self.graph, self@.regs, node, depth)) is Some;
        self.gather_regs_within(signal, instance_stack, Ghost(depth));
    }

    fn gather_regs_within(
        &mut self,
        signal: usize,
        instance_stack: &InstanceStack,
        Ghost(depth): Ghost<nat>,
    )
        requires
            old(self).wf(),
            gather(
                *old(self).graph,
                old(self)@.regs,
                Node { path: instance_stack@, signal },
                depth,
            ) is Some,
        ensures
            final(self).wf(),
            final(self).graph == old(self).graph,
            final(self)@ == (State {
                regs: gather(
                    *old(self).graph,
                    old(self)@.regs,
                    Node { path: instance_stack@, signal },
                    depth,
                )->0,
                ..old(self)@
            }),
        decreases depth,
    {
        let graph = self.graph;
        let ghost node = Node { path: instance_stack@, signal };
        let ghost less: nat = (depth - 1) as nat;
        let ghost regs = self@.regs;
        match &graph.signals[signal].data {
            SignalData::Lit { .. } => {
                proof {
                    gather_in_a_row(*graph, regs, node, node, node, less);
                }
            },
            SignalData::Input { name } => {
                proof {
                    gather_in_a_row(*graph, regs, node, node, node, less);
                }
                if let Some((instance, instance_stack_tail)) = instance_stack.pop() {
                    let driver = graph.instances[instance].driven_inputs.get(
                        name.as_str(),
                    ).unwrap();
                    proof {
                        let outside = Node { path: instance_stack_tail@, signal: driver };
                        gather_in_a_row(*graph, regs, outside, outside, outside, less);
                    }
                    self.gather_regs_within(driver, &instance_stack_tail, Ghost(less));
                }
            },
            SignalData::Reg { next } => {
                if self.reg_names.contains_key(instance_stack, signal) {
                    return;
                }
                let value_name = reg_value_name_string(self.reg_names.len());
                let next_name = reg_next_name_string(&value_name);
                self.reg_names.insert(
                    instance_stack.clone(),
                    signal,
                    RegNames { value_name, next_name },
                );
                self.gather_regs_within(next.unwrap(), instance_stack, Ghost(less));
            },
            SignalData::UnOp { source, .. } => {
                proof {
                    let a = node.beside(*source);
                    gather_in_a_row(*graph, regs, a, a, a, less);
                }
                self.gather_regs_within(*source, instance_stack, Ghost(less));
            },
            SignalData::BinOp { lhs, rhs, .. } => {
                proof {
                    let a = node.beside(*lhs);
                    let b = node.beside(*rhs);
                    gather_in_a_row(*graph, regs, a, b, b, less);
                }
                self.gather_regs_within(*lhs, instance_stack, Ghost(less));
                self.gather_regs_within(*rhs, instance_stack, Ghost(less));
            },
            SignalData::Bits { source, .. } => {
                proof {
                    let a = node.beside(*source);
                    gather_in_a_row(*graph, regs, a, a, a, less);
                }
                self.gather_regs_within(*source, instance_stack, Ghost(less));
            },
            SignalData::Repeat { source, .. } => {
                proof {
                    let a = node.beside(*source);
                    gather_in_a_row(*graph, regs, a, a, a, less);
                }
                self.gather_regs_within(*source, instance_stack, Ghost(less));
            },
            SignalData::Concat { lhs, rhs } => {
                proof {
                    let a = node.beside(*lhs);
                    let b = node.beside(*rhs);
                    gather_in_a_row(*graph, regs, a, b, b, less);
                }
                self.gather_regs_within(*lhs, instance_stack, Ghost(less));
                self.gather_regs_within(*rhs, instance_stack, Ghost(less));
            },
            SignalData::Mux { a, b, sel } => {
                proof {
                    let first = node.beside(*sel);
                    let second = node.beside(*b);
                    let third = node.beside(*a);
                    gather_in_a_row(*graph, regs, first, second, third, less);
                }
                self.gather_regs_within(*sel, instance_stack, Ghost(less));
                self.gather_regs_within(*b, instance_stack, Ghost(less));
                self.gather_regs_within(*a, instance_stack, Ghost(less));
            },
            SignalData::InstanceOutput { instance, name } => {
                let module = graph.instances[*instance].instantiated_module;
                let output = graph.modules[module].outputs.get(name.as_str()).unwrap();
                let inside = instance_stack.push(*instance);
                proof {
                    let a = Node { path: inside@, signal: output };
                    gather_in_a_row(*graph, regs, a, a, a, less);
                }
                self.gather_regs_within(output, &inside, Ghost(less));
            },
        }
    }

    /// Compiles `signal`, seen from `instance_stack`, and returns the expression that stands
    /// for it. The assignments that the expression needs are added to those made before.
    pub fn compile_signal(&mut self, signal: usize, instance_stack: &InstanceStack) -> (expr: Expr)
        requires
            old(self).wf(),
            lowers(*old(self).graph, old(self)@, Node { path: instance_stack@, signal }),
            lowered(
                *old(self).graph,
                old(self)@,
                Node { path: instance_stack@, signal },
            ).0.temps <= u32::MAX,
        ensures
            final(self).wf(),
            final(self).graph == old(self).graph,
            (final(self)@, expr@) == lowered(
                *old(self).graph,
                old(self)@,
                Node { path: instance_stack@, signal },
            ),
    {
        let ghost node = Node { path: instance_stack@, signal };
        let ghost depth = choose|depth: nat|
            (#[trigger] lower(*self.graph, self@, node, depth)) is Some;
        self.compile_signal_within(signal, instance_stack, Ghost(depth))
    }

    fn compile_signal_within(
        &mut self,
        signal: usize,
        instance_stack: &InstanceStack,
        Ghost(depth): Ghost<nat>,
    ) -> (expr: Expr)
        requires
            old(self).wf(),
            lower(
                *old(self).graph,
                old(self)@,
                Node { path: instance_stack@, signal },
                depth,
            ) is Some,
            (lower(
                *old(self).graph,
                old(self)@,
                Node { path: instance_stack@, signal },
                depth,
            )->0).0.temps <= u32::MAX,
        ensures
            final(self).wf(),
            final(self).graph == old(self).graph,
            lower(
                *old(self).graph,
                old(self)@,
                Node { path: instance_stack@, signal },
                depth,
            ) == Some((final(self)@, expr@)),
        decreases depth, 1nat,
    {
        if let Some(expr) = self.memory.signal_exprs.get(instance_stack, signal) {
            return expr.clone();
        }
        let expr = self.compile_operation(signal, instance_stack, Ghost(depth));
        self.memory.signal_exprs.insert(instance_stack.clone(), signal, expr.clone());
        expr
    }

    /// Compiles `signal`, which was not compiled before.
    #[verifier::rlimit(60)]
    fn compile_operation(
        &mut self,
        signal: usize,
        instance_stack: &InstanceStack,
        Ghost(depth): Ghost<nat>,
    ) -> (expr: Expr)
        requires
            old(self).wf(),
            !old(self)@.exprs.contains_key(Node { path: instance_stack@, signal }),
            lower(
                *old(self).graph,
                old(self)@,
                Node { path: instance_stack@, signal },
                depth,
            ) is Some,
            (lower(
                *old(self).graph,
                old(self)@,
                Node { path: instance_stack@, signal },
                depth,
            )->0).0.temps <= u32::MAX,
        ensures
            final(self).wf(),
            final(self).graph == old(self).graph,
            ({
                let node = Node { path: instance_stack@, signal };
                lower(*old(self).graph, old(self)@, node, depth) == Some(
                    (final(self)@.remember(node, expr@), expr@),
                )
            }),
        decreases depth, 0nat,
    {
        let graph = self.graph;
        let ghost node = Node { path: instance_stack@, signal };
        let ghost less: nat = (depth - 1) as nat;
        let ghost st = self@;
        let bit_width = graph.signals[signal].bit_width;
        match &graph.signals[signal].data {
            SignalData::Lit { value } => {
                let number = value.to_number();
                let target_type = ValueType::from_bit_width(bit_width);
                Expr::Value {
                    value: match target_type {
                        ValueType::Bool => Value::Bool(number != 0),
                        ValueType::U32 => Value::U32(#[verifier::truncate] (number as u32)),
                        ValueType::U64 => Value::U64(#[verifier::truncate] (number as u64)),
                        ValueType::U128 => Value::U128(number),
                    },
                }
            },
            SignalData::Input { name } => {
                if let Some((instance, instance_stack_tail)) = instance_stack.pop() {
                    let driver = graph.instances[instance].driven_inputs.get(
                        name.as_str(),
                    ).unwrap();
                    proof {
                        lower_one(
                            *graph,
                            st,
                            Node { path: instance_stack_tail@, signal: driver },
                            less,
                        );
                    }
                    self.compile_signal_within(driver, &instance_stack_tail, Ghost(less))
                } else {
                    let target_type = ValueType::from_bit_width(bit_width);
                    let expr = Expr::Ref { name: name.clone(), scope: RefScope::Member };
                    self.gen_mask(expr, bit_width, target_type)
                }
            },
            SignalData::Reg { .. } => Expr::Ref {
                name: self.reg_names.get(instance_stack, signal).unwrap().value_name.clone(),
                scope: RefScope::Member,
            },
            SignalData::UnOp { source, op } => {
                proof {
                    lower_one(*graph, st, node.beside(*source), less);
                    let (st1, e1) = lower(*graph, st, node.beside(*source), less)->0;
                    combine_extends(*graph, node, st1, seq![e1]);
                }
                let expr = self.compile_signal_within(*source, instance_stack, Ghost(less));
                self.compile_un_op(expr, *op, graph.signals[*source].bit_width)
            },
            SignalData::BinOp { lhs, rhs, op } => {
                proof {
                    self.two_operands(node, *lhs, *rhs, less);
                }
                let source_width = graph.signals[*lhs].bit_width;
                let lhs = self.compile_signal_within(*lhs, instance_stack, Ghost(less));
                let rhs = self.compile_signal_within(*rhs, instance_stack, Ghost(less));
                self.compile_bin_op(lhs, rhs, *op, source_width, bit_width)
            },
            SignalData::Bits { source, range_low, .. } => {
                proof {
                    lower_one(*graph, st, node.beside(*source), less);
                    let (st1, e1) = lower(*graph, st, node.beside(*source), less)->0;
                    combine_extends(*graph, node, st1, seq![e1]);
                }
                let expr = self.compile_signal_within(*source, instance_stack, Ghost(less));
                self.compile_bits(
                    expr,
                    *range_low,
                    graph.signals[*source].bit_width,
                    bit_width,
                )
            },
            SignalData::Repeat { source, count } => {
                proof {
                    lower_one(*graph, st, node.beside(*source), less);
                    let (st1, e1) = lower(*graph, st, node.beside(*source), less)->0;
                    combine_extends(*graph, node, st1, seq![e1]);
                }
                let expr = self.compile_signal_within(*source, instance_stack, Ghost(less));
                self.compile_repeat(
                    expr,
                    *count,
                    graph.signals[*source].bit_width,
                    bit_width,
                )
            },
            SignalData::Concat { lhs, rhs } => {
                proof {
                    self.two_operands(node, *lhs, *rhs, less);
                }
                let lhs_width = graph.signals[*lhs].bit_width;
                let rhs_width = graph.signals[*rhs].bit_width;
                let lhs = self.compile_signal_within(*lhs, instance_stack, Ghost(less));
                let rhs = self.compile_signal_within(*rhs, instance_stack, Ghost(less));
                self.compile_concat(lhs, rhs, lhs_width, rhs_width, bit_width)
            },
            SignalData::Mux { a, b, sel } => {
                proof {
                    let (na, nb, nc) = (node.beside(*b), node.beside(*a), node.beside(*sel));
                    lower_three(*graph, st, na, nb, nc, less);
                    let (st1, e1) = lower(*graph, st, na, less)->0;
                    let (st2, e2) = lower(*graph, st1, nb, less)->0;
                    let (st3, e3) = lower(*graph, st2, nc, less)->0;
                    lower_grows(*graph, st1, nb, less);
                    lower_grows(*graph, st2, nc, less);
                    combine_extends(*graph, node, st3, seq![e1, e2, e3]);
                }
                let lhs = self.compile_signal_within(*b, instance_stack, Ghost(less));
                let rhs = self.compile_signal_within(*a, instance_stack, Ghost(less));
                let cond = self.compile_signal_within(*sel, instance_stack, Ghost(less));
                self.gen_temp(
                    Expr::Ternary { lhs: Box::new(lhs), rhs: Box::new(rhs), cond: Box::new(cond) },
                )
            },
            SignalData::InstanceOutput { instance, name } => {
                let module = graph.instances[*instance].instantiated_module;
                let output = graph.modules[module].outputs.get(name.as_str()).unwrap();
                let inside = instance_stack.push(*instance);
                proof {
                    lower_one(*graph, st, Node { path: inside@, signal: output }, less);
                }
                self.compile_signal_within(output, &inside, Ghost(less))
            },
        }
    }

    /// What compiling `node` says of its two operands, which are seen from the same place.
    proof fn two_operands(self, node: Node, lhs: usize, rhs: usize, depth: nat)
        requires
            operands(*self.graph, node) == Some(seq![node.beside(lhs), node.beside(rhs)]),
            lower_all(
                *self.graph,
                self@,
                seq![node.beside(lhs), node.beside(rhs)],
                depth,
            ) is Some,
        ensures
            ({
                let (g, st, a, b) = (*self.graph, self@, node.beside(lhs), node.beside(rhs));
                let (st1, e1) = lower(g, st, a, depth)->0;
                let (st2, e2) = lower(g, st1, b, depth)->0;
                &&& lower(g, st, a, depth) is Some
                &&& lower(g, st1, b, depth) is Some
                &&& lower_all(g, st, seq![a, b], depth) == Some((st2, seq![e1, e2]))
                &&& st1.temps <= st2.temps
                &&& st2.temps <= combine(g, node, st2, seq![e1, e2]).0.temps
            }),
    {
        let (g, st, a, b) = (*self.graph, self@, node.beside(lhs), node.beside(rhs));
        lower_two(g, st, a, b, depth);
        let (st1, e1) = lower(g, st, a, depth)->0;
        let (st2, e2) = lower(g, st1, b, depth)->0;
        lower_grows(g, st1, b, depth);
        combine_extends(g, node, st2, seq![e1, e2]);
    }
}

} // verus!
