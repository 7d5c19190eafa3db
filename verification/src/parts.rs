//! What is made of a signal, stated on the signal's own fields: from which parts it is
//! compiled and in which order, what is added after them, and where a search goes on.

use crate::check::{search_all_fault, search_fault, searches_without_fault_end, SearchFault};
use crate::graph::{mask, BinOp, Graph, Node, SignalData, UnOp, Value};
use crate::il;
use crate::il::{AssignmentView, ExprView, RefScope, TargetScope, ValueType};
use crate::language::{constants_hold_low_bits, literals_are_worth_their_numbers};
use crate::lowering::{
    converted, gather, gather_in_a_row, gathered, gathers, joined_copies, lower, lower_all,
    lower_one, lower_repeat, lower_three, lower_two, lowered, lowers, masked, shifted, temp,
    RegNamesView, State,
};
use crate::name::{reg_next_name, reg_value_name, temp_name};
use crate::search::{depends, depends_on_register, leads};
use crate::words::{fits_below, mask_in_numbers};
use vstd::arithmetic::div_mod::lemma_small_mod;
use vstd::arithmetic::power2::{
    lemma2_to64, lemma_pow2_pos, lemma_pow2_strictly_increases, pow2,
};
use vstd::prelude::*;

verus! {

/// A new temporary is assigned after all that was assigned before, under the next name. What
/// comes back reads it.
pub proof fn temporaries_come_last(st: State, expr: ExprView)
    ensures
        ({
            let (after, reference) = temp(st, expr);
            &&& after.temps == st.temps + 1
            &&& after.regs == st.regs
            &&& after.exprs == st.exprs
            &&& after.assignments == st.assignments.push(
                AssignmentView {
                    target_scope: TargetScope::Local,
                    target_name: temp_name(st.temps),
                    expr,
                },
            )
            &&& reference == (ExprView::Ref { name: temp_name(st.temps), scope: RefScope::Local })
        }),
{
}

/// A mask takes a temporary where it is not as wide as the type: the conjunction with a
/// constant of that type, one less than two to the power of the width.
pub proof fn masks_are_conjunctions(
    st: State,
    expr: ExprView,
    bit_width: u32,
    target_type: ValueType,
)
    requires
        bit_width <= 128,
    ensures
        bit_width == target_type.bits() ==> masked(st, expr, bit_width, target_type) == (st, expr),
        bit_width != target_type.bits() ==> exists|constant: il::Value|
            {
                &&& #[trigger] constant.value_type() == target_type
                &&& constant.word() as int == (pow2(bit_width as nat) - 1) % pow2(
                    target_type.bits() as nat,
                ) as int
                &&& bit_width < target_type.bits() ==> constant.word() as int == pow2(
                    bit_width as nat,
                ) - 1
                &&& masked(st, expr, bit_width, target_type) == temp(
                    st,
                    ExprView::BinOp {
                        lhs: Box::new(expr),
                        rhs: Box::new(ExprView::Value { value: constant }),
                        op: il::BinOp::BitAnd,
                    },
                )
            },
{
    if bit_width != target_type.bits() {
        let word = mask(bit_width);
        let constant = il::Value::of(target_type, word);
        mask_in_numbers(bit_width);
        constants_hold_low_bits(target_type, word);
        lemma_pow2_pos(bit_width as nat);
        if bit_width < target_type.bits() {
            lemma_pow2_strictly_increases(bit_width as nat, target_type.bits() as nat);
            lemma_small_mod(word as nat, pow2(target_type.bits() as nat));
        }
        assert(masked(st, expr, bit_width, target_type) == temp(
            st,
            ExprView::BinOp {
                lhs: Box::new(expr),
                rhs: Box::new(ExprView::Value { value: constant }),
                op: il::BinOp::BitAnd,
            },
        ));
    }
}

/// A shift takes a temporary where it moves anything.
pub proof fn shifts_are_by_constants(st: State, expr: ExprView, shift: u32, op: il::BinOp)
    ensures
        shift == 0 ==> shifted(st, expr, shift, op) == (st, expr),
        shift > 0 ==> shifted(st, expr, shift, op) == temp(
            st,
            ExprView::BinOp {
                lhs: Box::new(expr),
                rhs: Box::new(ExprView::Value { value: il::Value::U32(shift) }),
                op,
            },
        ),
{
}

/// A conversion to a wider type than that of a single bit, or to a narrower one, takes a
/// temporary. One to a single bit masks the lowest bit and compares it with zero.
pub proof fn conversions_are_casts_and_tests(
    st: State,
    expr: ExprView,
    source_type: ValueType,
    target_type: ValueType,
)
    ensures
        source_type == target_type ==> converted(st, expr, source_type, target_type) == (st, expr),
        source_type != target_type && target_type != ValueType::Bool ==> converted(
            st,
            expr,
            source_type,
            target_type,
        ) == temp(st, ExprView::Cast { source: Box::new(expr), target_type }),
        source_type != target_type && target_type == ValueType::Bool ==> exists|zero: il::Value|
            {
                &&& #[trigger] zero.value_type() == source_type
                &&& zero.word() == 0
                &&& converted(st, expr, source_type, target_type) == temp(
                    masked(st, expr, 1, source_type).0,
                    ExprView::BinOp {
                        lhs: Box::new(masked(st, expr, 1, source_type).1),
                        rhs: Box::new(ExprView::Value { value: zero }),
                        op: il::BinOp::NotEqual,
                    },
                )
            },
{
    if source_type != target_type && target_type == ValueType::Bool {
        let zero = il::Value::of(source_type, 0);
        let (st1, low) = masked(st, expr, 1, source_type);
        constants_hold_low_bits(source_type, 0);
        lemma_pow2_pos(source_type.bits() as nat);
        lemma_small_mod(0, pow2(source_type.bits() as nat));
        assert(converted(st, expr, source_type, target_type) == temp(
            st1,
            ExprView::BinOp {
                lhs: Box::new(low),
                rhs: Box::new(ExprView::Value { value: zero }),
                op: il::BinOp::NotEqual,
            },
        ));
    }
}

/// A signal that was compiled keeps its expression. Nothing is made of what is no signal.
pub proof fn signals_are_compiled_once(g: Graph, st: State, node: Node, depth: nat)
    ensures
        lower(g, st, node, 0) is None,
        node.signal >= g.signals@.len() ==> lower(g, st, node, depth) is None,
        node.signal < g.signals@.len() && depth > 0 && st.exprs.contains_key(node) ==> lower(
            g,
            st,
            node,
            depth,
        ) == Some((st, st.exprs[node])),
        lowers(g, st, node) ==> exists|d: nat|
            (#[trigger] lower(g, st, node, d)) == Some(lowered(g, st, node)),
{
    if lowers(g, st, node) {
        let d = choose|d: nat| (#[trigger] lower(g, st, node, d)) is Some;
        assert(lower(g, st, node, d) == Some(lowered(g, st, node)));
    }
}

/// A literal is compiled to a constant of the type of its signal's width, without any
/// assignment. The constant of a single bit is set where what the literal was built with is
/// not zero. A wider one is worth as many low bits of that as its type has room for: all of
/// it, where it fits the width.
pub proof fn literals_become_constants(g: Graph, st: State, node: Node, depth: nat, value: Value)
    requires
        node.signal < g.signals@.len(),
        g.signals@[node.signal as int].data == (SignalData::Lit { value }),
        !st.exprs.contains_key(node),
    ensures
        ({
            let width = g.signals@[node.signal as int].bit_width;
            let number: int = match value {
                Value::Bool(truth) => if truth {
                    1
                } else {
                    0
                },
                Value::U32(x) => x as int,
                Value::U64(x) => x as int,
                Value::U128(x) => x as int,
            };
            &&& lower(g, st, node, depth + 1) is Some <==> 1 <= width <= 128
            &&& 1 <= width <= 128 ==> {
                let (after, expr) = lower(g, st, node, depth + 1)->0;
                &&& after == (State { exprs: st.exprs.insert(node, expr), ..st })
                &&& expr is Value
                &&& width == 1 ==> expr->Value_value == il::Value::Bool(number != 0)
                &&& width > 1 ==> expr->Value_value.value_type() == ValueType::holding(width)
                &&& width > 1 ==> expr->Value_value.word() as int == number % pow2(
                    ValueType::holding(width).bits() as nat,
                ) as int
                &&& number < pow2(width as nat) ==> expr->Value_value.word() as int == number
            }
        }),
{
    let width = g.signals@[node.signal as int].bit_width;
    reveal_with_fuel(lower_all, 1);
    match value {
        Value::Bool(x) => literals_are_worth_their_numbers(x, 0, 0, 0),
        Value::U32(x) => literals_are_worth_their_numbers(true, x, 0, 0),
        Value::U64(x) => literals_are_worth_their_numbers(true, 0, x, 0),
        Value::U128(x) => literals_are_worth_their_numbers(true, 0, 0, x),
    }
    if 1 <= width <= 128 {
        let bits = ValueType::holding(width).bits();
        constants_hold_low_bits(ValueType::holding(width), value.number());
        if width < bits {
            lemma_pow2_strictly_increases(width as nat, bits as nat);
        }
        if value.number() < pow2(width as nat) {
            lemma_small_mod(value.number() as nat, pow2(bits as nat));
        }
        lemma2_to64();
    }
}

/// An input at the top is the member of its name, masked to its width.
pub proof fn inputs_at_the_top_become_members(
    g: Graph,
    st: State,
    node: Node,
    depth: nat,
    name: String,
)
    requires
        node.signal < g.signals@.len(),
        g.signals@[node.signal as int].data == (SignalData::Input { name }),
        node.path.len() == 0,
        !st.exprs.contains_key(node),
    ensures
        ({
            let width = g.signals@[node.signal as int].bit_width;
            lower(g, st, node, depth + 1) == (if 1 <= width <= 128 {
                let (st1, expr) = masked(
                    st,
                    ExprView::Ref { name: name@, scope: RefScope::Member },
                    width,
                    ValueType::holding(width),
                );
                Some((State { exprs: st1.exprs.insert(node, expr), ..st1 }, expr))
            } else {
                None
            })
        }),
{
}

/// An input inside an instance is what drives the input of its name at the innermost
/// instance, seen from outside that. Nothing is added.
pub proof fn inputs_inside_become_their_drivers(
    g: Graph,
    st: State,
    node: Node,
    depth: nat,
    name: String,
)
    requires
        node.signal < g.signals@.len(),
        g.signals@[node.signal as int].data == (SignalData::Input { name }),
        node.path.len() > 0,
        !st.exprs.contains_key(node),
    ensures
        ({
            let width = g.signals@[node.signal as int].bit_width;
            let instance = node.path.last();
            lower(g, st, node, depth + 1) == (if 1 <= width <= 128 && instance
                < g.instances@.len() && g.instances@[instance as int].driven_inputs@.contains_key(
                name@,
            ) {
                let driver = g.instances@[instance as int].driven_inputs@[name@];
                match lower(g, st, Node { path: node.path.drop_last(), signal: driver }, depth) {
                    Some((st1, expr)) => Some(
                        (State { exprs: st1.exprs.insert(node, expr), ..st1 }, expr),
                    ),
                    None => None,
                }
            } else {
                None
            })
        }),
{
    let instance = node.path.last();
    if instance < g.instances@.len() {
        let driver = g.instances@[instance as int].driven_inputs@[name@];
        lower_one(g, st, Node { path: node.path.drop_last(), signal: driver }, depth);
    }
}

/// An output of an instance is what the outputs of the module that this instance
/// instantiates bind its name to, seen from inside the instance. Nothing is added.
pub proof fn instance_outputs_become_what_the_module_binds(
    g: Graph,
    st: State,
    node: Node,
    depth: nat,
    instance: usize,
    name: String,
)
    requires
        node.signal < g.signals@.len(),
        g.signals@[node.signal as int].data == (SignalData::InstanceOutput { instance, name }),
        !st.exprs.contains_key(node),
    ensures
        ({
            let width = g.signals@[node.signal as int].bit_width;
            let module = g.instances@[instance as int].instantiated_module;
            lower(g, st, node, depth + 1) == (if 1 <= width <= 128 && instance
                < g.instances@.len() && module < g.modules@.len()
                && g.modules@[module as int].outputs@.contains_key(name@) {
                let output = g.modules@[module as int].outputs@[name@];
                match lower(
                    g,
                    st,
                    Node { path: node.path.push(instance), signal: output },
                    depth,
                ) {
                    Some((st1, expr)) => Some(
                        (State { exprs: st1.exprs.insert(node, expr), ..st1 }, expr),
                    ),
                    None => None,
                }
            } else {
                None
            })
        }),
{
    let module = g.instances@[instance as int].instantiated_module;
    let output = g.modules@[module as int].outputs@[name@];
    lower_one(g, st, Node { path: node.path.push(instance), signal: output }, depth);
}

/// A register is the member under whose name its current value is kept.
pub proof fn registers_become_members(
    g: Graph,
    st: State,
    node: Node,
    depth: nat,
    next: Option<usize>,
)
    requires
        node.signal < g.signals@.len(),
        g.signals@[node.signal as int].data == (SignalData::Reg { next }),
        !st.exprs.contains_key(node),
    ensures
        ({
            let width = g.signals@[node.signal as int].bit_width;
            lower(g, st, node, depth + 1) == (if 1 <= width <= 128 && st.regs.contains_key(node) {
                let expr = ExprView::Ref {
                    name: st.regs[node].value_name,
                    scope: RefScope::Member,
                };
                Some((State { exprs: st.exprs.insert(node, expr), ..st }, expr))
            } else {
                None
            })
        }),
{
}

/// A complement is compiled from its source: that is complemented and masked to its width.
pub proof fn complements_are_compiled_from_their_source(
    g: Graph,
    st: State,
    node: Node,
    depth: nat,
    source: usize,
)
    requires
        node.signal < g.signals@.len(),
        g.signals@[node.signal as int].data == (SignalData::UnOp { source, op: UnOp::Not }),
        !st.exprs.contains_key(node),
    ensures
        ({
            let width = g.signals@[node.signal as int].bit_width;
            let source_width = g.signals@[source as int].bit_width;
            lower(g, st, node, depth + 1) == (if 1 <= width <= 128 && source < g.signals@.len()
                && 1 <= source_width <= 128 {
                match lower(g, st, Node { path: node.path, signal: source }, depth) {
                    Some((st1, e1)) => {
                        let (st2, e2) = temp(
                            st1,
                            ExprView::UnOp { source: Box::new(e1), op: il::UnOp::Not },
                        );
                        let (st3, e3) = masked(
                            st2,
                            e2,
                            source_width,
                            ValueType::holding(source_width),
                        );
                        Some((State { exprs: st3.exprs.insert(node, e3), ..st3 }, e3))
                    },
                    None => None,
                }
            } else {
                None
            })
        }),
{
    lower_one(g, st, Node { path: node.path, signal: source }, depth);
}

/// A binary operation is compiled from `lhs`, then `rhs`. `lhs` is its left side and `rhs` its
/// right side. Both are converted where single bits are added; the result is converted and
/// masked to the width of the signal.
pub proof fn binary_operations_are_compiled_from_their_sides(
    g: Graph,
    st: State,
    node: Node,
    depth: nat,
    lhs: usize,
    rhs: usize,
    op: BinOp,
)
    requires
        node.signal < g.signals@.len(),
        g.signals@[node.signal as int].data == (SignalData::BinOp { lhs, rhs, op }),
        !st.exprs.contains_key(node),
    ensures
        ({
            let width = g.signals@[node.signal as int].bit_width;
            let source_width = g.signals@[lhs as int].bit_width;
            let source_type = ValueType::holding(source_width);
            let target_type = ValueType::holding(width);
            let input_type = if op == BinOp::Add && source_width == 1 {
                ValueType::U32
            } else {
                source_type
            };
            let (il_op, output_type) = match op {
                BinOp::Add => (il::BinOp::Add, input_type),
                BinOp::BitAnd => (il::BinOp::BitAnd, input_type),
                BinOp::BitOr => (il::BinOp::BitOr, input_type),
                BinOp::BitXor => (il::BinOp::BitXor, input_type),
                BinOp::Equal => (il::BinOp::Equal, ValueType::Bool),
                BinOp::NotEqual => (il::BinOp::NotEqual, ValueType::Bool),
                BinOp::LessThan => (il::BinOp::LessThan, ValueType::Bool),
                BinOp::LessThanEqual => (il::BinOp::LessThanEqual, ValueType::Bool),
                BinOp::GreaterThan => (il::BinOp::GreaterThan, ValueType::Bool),
                BinOp::GreaterThanEqual => (il::BinOp::GreaterThanEqual, ValueType::Bool),
            };
            lower(g, st, node, depth + 1) == (if 1 <= width <= 128 && lhs < g.signals@.len() && 1
                <= source_width <= 128 {
                match lower(g, st, Node { path: node.path, signal: lhs }, depth) {
                    Some((st1, left)) => match lower(
                        g,
                        st1,
                        Node { path: node.path, signal: rhs },
                        depth,
                    ) {
                        Some((st2, right)) => {
                            let (st3, left) = converted(st2, left, source_type, input_type);
                            let (st4, right) = converted(st3, right, source_type, input_type);
                            let (st5, e5) = temp(
                                st4,
                                ExprView::BinOp {
                                    lhs: Box::new(left),
                                    rhs: Box::new(right),
                                    op: il_op,
                                },
                            );
                            let (st6, e6) = converted(st5, e5, output_type, target_type);
                            let (st7, e7) = masked(st6, e6, width, target_type);
                            Some((State { exprs: st7.exprs.insert(node, e7), ..st7 }, e7))
                        },
                        None => None,
                    },
                    None => None,
                }
            } else {
                None
            })
        }),
{
    lower_two(
        g,
        st,
        Node { path: node.path, signal: lhs },
        Node { path: node.path, signal: rhs },
        depth,
    );
}

/// A range of bits is compiled from its source: that is shifted to the right by the low end
/// of the range, converted and masked to the width of the signal.
pub proof fn bit_ranges_are_compiled_from_their_source(
    g: Graph,
    st: State,
    node: Node,
    depth: nat,
    source: usize,
    range_high: u32,
    range_low: u32,
)
    requires
        node.signal < g.signals@.len(),
        g.signals@[node.signal as int].data == (SignalData::Bits { source, range_high, range_low }),
        !st.exprs.contains_key(node),
    ensures
        ({
            let width = g.signals@[node.signal as int].bit_width;
            let source_width = g.signals@[source as int].bit_width;
            let (source_type, target_type) = (
                ValueType::holding(source_width),
                ValueType::holding(width),
            );
            lower(g, st, node, depth + 1) == (if 1 <= width <= 128 && source < g.signals@.len()
                && 1 <= source_width <= 128 {
                match lower(g, st, Node { path: node.path, signal: source }, depth) {
                    Some((st1, e1)) => {
                        let (st2, e2) = shifted(st1, e1, range_low, il::BinOp::Shr);
                        let (st3, e3) = converted(st2, e2, source_type, target_type);
                        let (st4, e4) = masked(st3, e3, width, target_type);
                        Some((State { exprs: st4.exprs.insert(node, e4), ..st4 }, e4))
                    },
                    None => None,
                }
            } else {
                None
            })
        }),
{
    lower_one(g, st, Node { path: node.path, signal: source }, depth);
}

/// Each copy after the first takes two temporaries: one for the copy, moved to its place, and
/// one that joins it to those before.
proof fn copies_are_joined_one_by_one(st: State, e: ExprView, source_width: u32, count: nat)
    requires
        source_width >= 1,
        count >= 1,
        (count - 1) * source_width <= u32::MAX,
    ensures
        ({
            let (after, result) = joined_copies(st, e, e, source_width, count);
            let (n, t) = (st.assignments.len() as int, st.temps as int);
            &&& after.regs == st.regs
            &&& after.exprs == st.exprs
            &&& after.temps == st.temps + 2 * (count - 1)
            &&& after.assignments.len() == n + 2 * (count - 1)
            &&& st.assignments =~= after.assignments.take(n)
            &&& forall|k: int|
                1 <= k < count ==> {
                    &&& #[trigger] after.assignments[n + 2 * k - 2] == (AssignmentView {
                        target_scope: TargetScope::Local,
                        target_name: temp_name((t + 2 * k - 2) as nat),
                        expr: ExprView::BinOp {
                            lhs: Box::new(e),
                            rhs: Box::new(
                                ExprView::Value {
                                    value: il::Value::U32((k * source_width) as u32),
                                },
                            ),
                            op: il::BinOp::Shl,
                        },
                    })
                    &&& after.assignments[n + 2 * k - 1] == (AssignmentView {
                        target_scope: TargetScope::Local,
                        target_name: temp_name((t + 2 * k - 1) as nat),
                        expr: ExprView::BinOp {
                            lhs: Box::new(
                                if k == 1 {
                                    e
                                } else {
                                    ExprView::Ref {
                                        name: temp_name((t + 2 * k - 3) as nat),
                                        scope: RefScope::Local,
                                    }
                                },
                            ),
                            rhs: Box::new(
                                ExprView::Ref {
                                    name: temp_name((t + 2 * k - 2) as nat),
                                    scope: RefScope::Local,
                                },
                            ),
                            op: il::BinOp::BitOr,
                        },
                    })
                }
            &&& result == (if count == 1 {
                e
            } else {
                ExprView::Ref {
                    name: temp_name((t + 2 * count - 3) as nat),
                    scope: RefScope::Local,
                }
            })
        }),
    decreases count,
{
    if count > 1 {
        let less = (count - 1) as nat;
        assert(0 < (count - 1) * source_width && (less - 1) * source_width <= (count - 1)
            * source_width) by (nonlinear_arith)
            requires
                count > 1,
                less == count - 1,
                source_width >= 1,
        ;
        copies_are_joined_one_by_one(st, e, source_width, less);
        let (before, so_far) = joined_copies(st, e, e, source_width, less);
        let (after, result) = joined_copies(st, e, e, source_width, count);
        let n = st.assignments.len() as int;
        let m = before.assignments.len() as int;
        assert(after.assignments.len() == m + 2);
        assert forall|i: int| 0 <= i < m implies after.assignments[i] == before.assignments[i] by {}
        assert(before.assignments.take(n) =~= after.assignments.take(n));
        assert forall|k: int| 1 <= k < less implies #[trigger] after.assignments[n + 2 * k - 2]
            == before.assignments[n + 2 * k - 2] && after.assignments[n + 2 * k - 1]
            == before.assignments[n + 2 * k - 1] by {}
    }
}

/// A repetition is compiled from its source, which is converted to the type of the signal.
/// Each copy after the first takes two temporaries: one for the source, shifted to the left
/// by as many bits as the copies before it take, and one for the disjunction of what was
/// joined so far with that.
pub proof fn repetitions_are_compiled_from_their_source(
    g: Graph,
    st: State,
    node: Node,
    depth: nat,
    source: usize,
    count: u32,
)
    requires
        node.signal < g.signals@.len(),
        g.signals@[node.signal as int].data == (SignalData::Repeat { source, count }),
        !st.exprs.contains_key(node),
        1 <= count,
    ensures
        ({
            let width = g.signals@[node.signal as int].bit_width;
            let source_width = g.signals@[source as int].bit_width;
            let part = lower(g, st, Node { path: node.path, signal: source }, depth);
            let made = lower(g, st, node, depth + 1);
            &&& made is Some <==> 1 <= width <= 128 && source < g.signals@.len() && 1
                <= source_width <= 128 && (count - 1) * source_width <= u32::MAX && part is Some
            &&& made is Some ==> {
                let (st1, e1) = part->0;
                let (st2, e) = converted(
                    st1,
                    e1,
                    ValueType::holding(source_width),
                    ValueType::holding(width),
                );
                let (after, result) = made->0;
                let (n, t) = (st2.assignments.len() as int, st2.temps as int);
                &&& after.regs == st2.regs
                &&& after.exprs == st2.exprs.insert(node, result)
                &&& after.temps == t + 2 * (count - 1)
                &&& after.assignments.len() == n + 2 * (count - 1)
                &&& st2.assignments =~= after.assignments.take(n)
                &&& forall|k: int|
                    1 <= k < count ==> {
                        &&& #[trigger] after.assignments[n + 2 * k - 2] == (AssignmentView {
                            target_scope: TargetScope::Local,
                            target_name: temp_name((t + 2 * k - 2) as nat),
                            expr: ExprView::BinOp {
                                lhs: Box::new(e),
                                rhs: Box::new(
                                    ExprView::Value {
                                        value: il::Value::U32((k * source_width) as u32),
                                    },
                                ),
                                op: il::BinOp::Shl,
                            },
                        })
                        &&& after.assignments[n + 2 * k - 1] == (AssignmentView {
                            target_scope: TargetScope::Local,
                            target_name: temp_name((t + 2 * k - 1) as nat),
                            expr: ExprView::BinOp {
                                lhs: Box::new(
                                    if k == 1 {
                                        e
                                    } else {
                                        ExprView::Ref {
                                            name: temp_name((t + 2 * k - 3) as nat),
                                            scope: RefScope::Local,
                                        }
                                    },
                                ),
                                rhs: Box::new(
                                    ExprView::Ref {
                                        name: temp_name((t + 2 * k - 2) as nat),
                                        scope: RefScope::Local,
                                    },
                                ),
                                op: il::BinOp::BitOr,
                            },
                        })
                    }
                &&& result == (if count == 1 {
                    e
                } else {
                    ExprView::Ref {
                        name: temp_name((t + 2 * count - 3) as nat),
                        scope: RefScope::Local,
                    }
                })
            }
        }),
{
    let width = g.signals@[node.signal as int].bit_width;
    let source_width = g.signals@[source as int].bit_width;
    lower_one(g, st, Node { path: node.path, signal: source }, depth);
    let made = lower(g, st, node, depth + 1);
    if made is Some {
        let (st1, e1) = lower(g, st, Node { path: node.path, signal: source }, depth)->0;
        let (st2, e) = converted(
            st1,
            e1,
            ValueType::holding(source_width),
            ValueType::holding(width),
        );
        copies_are_joined_one_by_one(st2, e, source_width, count as nat);
    }
}

/// A repetition of no copies is compiled like one of a single copy.
pub proof fn empty_repetitions_are_conversions(
    g: Graph,
    st: State,
    node: Node,
    depth: nat,
    source: usize,
)
    requires
        node.signal < g.signals@.len(),
        g.signals@[node.signal as int].data == (SignalData::Repeat { source, count: 0 }),
        !st.exprs.contains_key(node),
    ensures
        ({
            let width = g.signals@[node.signal as int].bit_width;
            let source_width = g.signals@[source as int].bit_width;
            lower(g, st, node, depth + 1) == (if 1 <= width <= 128 && source < g.signals@.len()
                && 1 <= source_width <= 128 {
                match lower(g, st, Node { path: node.path, signal: source }, depth) {
                    Some((st1, e1)) => {
                        let (st2, e2) = converted(
                            st1,
                            e1,
                            ValueType::holding(source_width),
                            ValueType::holding(width),
                        );
                        Some((State { exprs: st2.exprs.insert(node, e2), ..st2 }, e2))
                    },
                    None => None,
                }
            } else {
                None
            })
        }),
{
    let part = Node { path: node.path, signal: source };
    let width = g.signals@[node.signal as int].bit_width;
    let source_width = g.signals@[source as int].bit_width;
    lower_one(g, st, part, depth);
    assert((0 - 1) * source_width <= 0) by (nonlinear_arith)
        requires
            source_width >= 0,
    ;
    if lower(g, st, part, depth) is Some {
        let (st1, e1) = lower(g, st, part, depth)->0;
        let (st2, e2) = converted(
            st1,
            e1,
            ValueType::holding(source_width),
            ValueType::holding(width),
        );
        assert(joined_copies(st2, e2, e2, source_width, 0) == (st2, e2));
        assert(lower_repeat(st1, e1, 0, source_width, width) == (st2, e2));
    }
}

/// A concatenation is compiled from `lhs`, then `rhs`. Both are converted to the type of the
/// signal, `lhs` is shifted to the left by the width of `rhs`, and the two are joined.
pub proof fn concatenations_are_compiled_from_both_halves(
    g: Graph,
    st: State,
    node: Node,
    depth: nat,
    lhs: usize,
    rhs: usize,
)
    requires
        node.signal < g.signals@.len(),
        g.signals@[node.signal as int].data == (SignalData::Concat { lhs, rhs }),
        !st.exprs.contains_key(node),
    ensures
        ({
            let width = g.signals@[node.signal as int].bit_width;
            let lhs_width = g.signals@[lhs as int].bit_width;
            let rhs_width = g.signals@[rhs as int].bit_width;
            let target_type = ValueType::holding(width);
            lower(g, st, node, depth + 1) == (if 1 <= width <= 128 && lhs < g.signals@.len() && 1
                <= lhs_width <= 128 && rhs < g.signals@.len() && 1 <= rhs_width <= 128 {
                match lower(g, st, Node { path: node.path, signal: lhs }, depth) {
                    Some((st1, high)) => match lower(
                        g,
                        st1,
                        Node { path: node.path, signal: rhs },
                        depth,
                    ) {
                        Some((st2, low)) => {
                            let (st3, high) = converted(
                                st2,
                                high,
                                ValueType::holding(lhs_width),
                                target_type,
                            );
                            let (st4, low) = converted(
                                st3,
                                low,
                                ValueType::holding(rhs_width),
                                target_type,
                            );
                            let (st5, high) = shifted(st4, high, rhs_width, il::BinOp::Shl);
                            let (st6, e6) = temp(
                                st5,
                                ExprView::BinOp {
                                    lhs: Box::new(high),
                                    rhs: Box::new(low),
                                    op: il::BinOp::BitOr,
                                },
                            );
                            Some((State { exprs: st6.exprs.insert(node, e6), ..st6 }, e6))
                        },
                        None => None,
                    },
                    None => None,
                }
            } else {
                None
            })
        }),
{
    lower_two(
        g,
        st,
        Node { path: node.path, signal: lhs },
        Node { path: node.path, signal: rhs },
        depth,
    );
}

/// A multiplexer is compiled from `b`, then `a`, then `sel`: a choice of `b` where `sel` is
/// high, else of `a`.
pub proof fn multiplexers_are_compiled_from_their_parts(
    g: Graph,
    st: State,
    node: Node,
    depth: nat,
    a: usize,
    b: usize,
    sel: usize,
)
    requires
        node.signal < g.signals@.len(),
        g.signals@[node.signal as int].data == (SignalData::Mux { a, b, sel }),
        !st.exprs.contains_key(node),
    ensures
        ({
            let width = g.signals@[node.signal as int].bit_width;
            lower(g, st, node, depth + 1) == (if 1 <= width <= 128 {
                match lower(g, st, Node { path: node.path, signal: b }, depth) {
                    Some((st1, high)) => match lower(
                        g,
                        st1,
                        Node { path: node.path, signal: a },
                        depth,
                    ) {
                        Some((st2, low)) => match lower(
                            g,
                            st2,
                            Node { path: node.path, signal: sel },
                            depth,
                        ) {
                            Some((st3, select)) => {
                                let (st4, e4) = temp(
                                    st3,
                                    ExprView::Ternary {
                                        lhs: Box::new(high),
                                        rhs: Box::new(low),
                                        cond: Box::new(select),
                                    },
                                );
                                Some((State { exprs: st4.exprs.insert(node, e4), ..st4 }, e4))
                            },
                            None => None,
                        },
                        None => None,
                    },
                    None => None,
                }
            } else {
                None
            })
        }),
{
    lower_three(
        g,
        st,
        Node { path: node.path, signal: b },
        Node { path: node.path, signal: a },
        Node { path: node.path, signal: sel },
        depth,
    );
}

/// A search goes on to the parts of a signal, one after the other: to both sides of an
/// operation or a concatenation, the left one first; to the selector of a multiplexer, then
/// to what it selects where it is high, then to the rest; through the boundaries of
/// instances; and from a register that had no name to its next value, once it has the next
/// number's name.
pub proof fn searches_go_on_to_the_parts(
    g: Graph,
    regs: Map<Node, RegNamesView>,
    node: Node,
    depth: nat,
)
    ensures
        gather(g, regs, node, 0) is None,
        node.signal >= g.signals@.len() ==> gather(g, regs, node, depth) is None,
        gathers(g, regs, node) ==> exists|d: nat|
            (#[trigger] gather(g, regs, node, d)) == Some(gathered(g, regs, node)),
        node.signal < g.signals@.len() ==> ({
            let found = gather(g, regs, node, depth + 1);
            match g.signals@[node.signal as int].data {
                SignalData::Lit { .. } => found == Some(regs),
                SignalData::Input { name } => {
                    let instance = node.path.last();
                    found == (if node.path.len() == 0 {
                        Some(regs)
                    } else if instance < g.instances@.len()
                        && g.instances@[instance as int].driven_inputs@.contains_key(name@) {
                        gather(
                            g,
                            regs,
                            Node {
                                path: node.path.drop_last(),
                                signal: g.instances@[instance as int].driven_inputs@[name@],
                            },
                            depth,
                        )
                    } else {
                        None
                    })
                },
                SignalData::Reg { next } => found == (if regs.contains_key(node) {
                    Some(regs)
                } else {
                    match next {
                        Some(next) => gather(
                            g,
                            regs.insert(
                                node,
                                RegNamesView {
                                    value_name: reg_value_name(regs.len()),
                                    next_name: reg_next_name(regs.len()),
                                },
                            ),
                            Node { path: node.path, signal: next },
                            depth,
                        ),
                        None => None,
                    }
                }),
                SignalData::UnOp { source, .. }
                | SignalData::Bits { source, .. }
                | SignalData::Repeat { source, .. } => found == gather(
                    g,
                    regs,
                    Node { path: node.path, signal: source },
                    depth,
                ),
                SignalData::BinOp { lhs, rhs, .. } | SignalData::Concat { lhs, rhs } => found == (
                match gather(g, regs, Node { path: node.path, signal: lhs }, depth) {
                    Some(first) => gather(g, first, Node { path: node.path, signal: rhs }, depth),
                    None => None,
                }),
                SignalData::Mux { a, b, sel } => found == (match gather(
                    g,
                    regs,
                    Node { path: node.path, signal: sel },
                    depth,
                ) {
                    Some(first) => match gather(
                        g,
                        first,
                        Node { path: node.path, signal: b },
                        depth,
                    ) {
                        Some(second) => gather(
                            g,
                            second,
                            Node { path: node.path, signal: a },
                            depth,
                        ),
                        None => None,
                    },
                    None => None,
                }),
                SignalData::InstanceOutput { instance, name } => {
                    let module = g.instances@[instance as int].instantiated_module;
                    found == (if instance < g.instances@.len() && module < g.modules@.len()
                        && g.modules@[module as int].outputs@.contains_key(name@) {
                        gather(
                            g,
                            regs,
                            Node {
                                path: node.path.push(instance),
                                signal: g.modules@[module as int].outputs@[name@],
                            },
                            depth,
                        )
                    } else {
                        None
                    })
                },
            }
        }),
{
    if gathers(g, regs, node) {
        let d = choose|d: nat| (#[trigger] gather(g, regs, node, d)) is Some;
        assert(gather(g, regs, node, d) == Some(gathered(g, regs, node)));
    }
    if node.signal < g.signals@.len() {
        match g.signals@[node.signal as int].data {
            SignalData::Lit { .. } => {
                gather_in_a_row(g, regs, node, node, node, depth);
            },
            SignalData::Input { name } => {
                let instance = node.path.last();
                let a = Node {
                    path: node.path.drop_last(),
                    signal: g.instances@[instance as int].driven_inputs@[name@],
                };
                gather_in_a_row(g, regs, a, a, a, depth);
            },
            SignalData::Reg { .. } => {},
            SignalData::UnOp { source, .. }
            | SignalData::Bits { source, .. }
            | SignalData::Repeat { source, .. } => {
                let a = Node { path: node.path, signal: source };
                gather_in_a_row(g, regs, a, a, a, depth);
            },
            SignalData::BinOp { lhs, rhs, .. } | SignalData::Concat { lhs, rhs } => {
                let a = Node { path: node.path, signal: lhs };
                let b = Node { path: node.path, signal: rhs };
                gather_in_a_row(g, regs, a, b, b, depth);
            },
            SignalData::Mux { a, b, sel } => {
                gather_in_a_row(
                    g,
                    regs,
                    Node { path: node.path, signal: sel },
                    Node { path: node.path, signal: b },
                    Node { path: node.path, signal: a },
                    depth,
                );
            },
            SignalData::InstanceOutput { instance, name } => {
                let module = g.instances@[instance as int].instantiated_module;
                let a = Node {
                    path: node.path.push(instance),
                    signal: g.modules@[module as int].outputs@[name@],
                };
                gather_in_a_row(g, regs, a, a, a, depth);
            },
        }
    }
}

/// The first fault of searches from one signal, and from two and three in a row.
proof fn faults_in_a_row(
    g: Graph,
    regs: Map<Node, RegNamesView>,
    a: Node,
    b: Node,
    c: Node,
    depth: nat,
)
    ensures
        search_all_fault(g, regs, seq![], depth) is None,
        search_all_fault(g, regs, seq![a], depth) == search_fault(g, regs, a, depth),
        search_all_fault(g, regs, seq![a, b], depth) == (match search_fault(g, regs, a, depth) {
            Some(fault) => Some(fault),
            None => search_fault(g, gather(g, regs, a, depth)->0, b, depth),
        }),
        search_all_fault(g, regs, seq![a, b, c], depth) == (match search_fault(
            g,
            regs,
            a,
            depth,
        ) {
            Some(fault) => Some(fault),
            None => {
                let first = gather(g, regs, a, depth)->0;
                match search_fault(g, first, b, depth) {
                    Some(fault) => Some(fault),
                    None => search_fault(g, gather(g, first, b, depth)->0, c, depth),
                }
            },
        }),
{
    reveal_with_fuel(search_all_fault, 4);
    gather_in_a_row(g, regs, a, b, c, depth);
    searches_without_fault_end(g, regs, a, depth);
    if gather(g, regs, a, depth) is Some {
        searches_without_fault_end(g, gather(g, regs, a, depth)->0, b, depth);
    }
    assert(seq![a].drop_last() =~= seq![]);
    assert(seq![a, b].drop_last() =~= seq![a]);
    assert(seq![a, b, c].drop_last() =~= seq![a, b]);
}

/// A fault is found where a search meets it first: at a position without a signal, at an
/// input of an instance without a driver, at an output that the instance's module does not
/// have, at a register without a next value, or after too many signals in a row.
pub proof fn faults_are_found_at_the_parts(
    g: Graph,
    regs: Map<Node, RegNamesView>,
    node: Node,
    depth: nat,
)
    ensures
        search_fault(g, regs, node, 0) == Some(SearchFault::TooDeep),
        node.signal >= g.signals@.len() ==> search_fault(g, regs, node, depth + 1) == Some(
            SearchFault::NoSignal,
        ),
        node.signal < g.signals@.len() ==> ({
            let fault = search_fault(g, regs, node, depth + 1);
            match g.signals@[node.signal as int].data {
                SignalData::Lit { .. } => fault is None,
                SignalData::Input { name } => {
                    let instance = node.path.last();
                    fault == (if node.path.len() == 0 {
                        None
                    } else if instance < g.instances@.len()
                        && g.instances@[instance as int].driven_inputs@.contains_key(name@) {
                        search_fault(
                            g,
                            regs,
                            Node {
                                path: node.path.drop_last(),
                                signal: g.instances@[instance as int].driven_inputs@[name@],
                            },
                            depth,
                        )
                    } else {
                        Some(SearchFault::UndrivenInput)
                    })
                },
                SignalData::Reg { next } => fault == (if regs.contains_key(node) {
                    None
                } else {
                    match next {
                        Some(next) => search_fault(
                            g,
                            regs.insert(
                                node,
                                RegNamesView {
                                    value_name: reg_value_name(regs.len()),
                                    next_name: reg_next_name(regs.len()),
                                },
                            ),
                            Node { path: node.path, signal: next },
                            depth,
                        ),
                        None => Some(SearchFault::UndrivenRegister),
                    }
                }),
                SignalData::UnOp { source, .. }
                | SignalData::Bits { source, .. }
                | SignalData::Repeat { source, .. } => fault == search_fault(
                    g,
                    regs,
                    Node { path: node.path, signal: source },
                    depth,
                ),
                SignalData::BinOp { lhs, rhs, .. } | SignalData::Concat { lhs, rhs } => {
                    let left = Node { path: node.path, signal: lhs };
                    fault == (match search_fault(g, regs, left, depth) {
                        Some(fault) => Some(fault),
                        None => search_fault(
                            g,
                            gather(g, regs, left, depth)->0,
                            Node { path: node.path, signal: rhs },
                            depth,
                        ),
                    })
                },
                SignalData::Mux { a, b, sel } => {
                    let select = Node { path: node.path, signal: sel };
                    let high = Node { path: node.path, signal: b };
                    let first = gather(g, regs, select, depth)->0;
                    fault == (match search_fault(g, regs, select, depth) {
                        Some(fault) => Some(fault),
                        None => match search_fault(g, first, high, depth) {
                            Some(fault) => Some(fault),
                            None => search_fault(
                                g,
                                gather(g, first, high, depth)->0,
                                Node { path: node.path, signal: a },
                                depth,
                            ),
                        },
                    })
                },
                SignalData::InstanceOutput { instance, name } => {
                    let module = g.instances@[instance as int].instantiated_module;
                    fault == (if instance < g.instances@.len() && module < g.modules@.len()
                        && g.modules@[module as int].outputs@.contains_key(name@) {
                        search_fault(
                            g,
                            regs,
                            Node {
                                path: node.path.push(instance),
                                signal: g.modules@[module as int].outputs@[name@],
                            },
                            depth,
                        )
                    } else {
                        Some(SearchFault::NoOutput)
                    })
                },
            }
        }),
{
    if node.signal < g.signals@.len() {
        match g.signals@[node.signal as int].data {
            SignalData::Lit { .. } => {
                faults_in_a_row(g, regs, node, node, node, depth);
            },
            SignalData::Input { name } => {
                let instance = node.path.last();
                let a = Node {
                    path: node.path.drop_last(),
                    signal: g.instances@[instance as int].driven_inputs@[name@],
                };
                faults_in_a_row(g, regs, a, a, a, depth);
            },
            SignalData::Reg { .. } => {},
            SignalData::UnOp { source, .. }
            | SignalData::Bits { source, .. }
            | SignalData::Repeat { source, .. } => {
                let a = Node { path: node.path, signal: source };
                faults_in_a_row(g, regs, a, a, a, depth);
            },
            SignalData::BinOp { lhs, rhs, .. } | SignalData::Concat { lhs, rhs } => {
                let a = Node { path: node.path, signal: lhs };
                let b = Node { path: node.path, signal: rhs };
                faults_in_a_row(g, regs, a, b, b, depth);
            },
            SignalData::Mux { a, b, sel } => {
                faults_in_a_row(
                    g,
                    regs,
                    Node { path: node.path, signal: sel },
                    Node { path: node.path, signal: b },
                    Node { path: node.path, signal: a },
                    depth,
                );
            },
            SignalData::InstanceOutput { instance, name } => {
                let module = g.instances@[instance as int].instantiated_module;
                let a = Node {
                    path: node.path.push(instance),
                    signal: g.modules@[module as int].outputs@[name@],
                };
                faults_in_a_row(g, regs, a, a, a, depth);
            },
        }
    }
}

/// What it takes for a signal to be well formed, part by part.
pub proof fn well_formed_signals_agree_with_their_parts(g: Graph, signal: usize)
    requires
        signal < g.signals@.len(),
    ensures
        g.signal_wf(signal) <==> ({
            let width = g.signals@[signal as int].bit_width;
            let wide = |part: usize, bits: int|
                part < g.signals@.len() && g.signals@[part as int].bit_width == bits;
            &&& 1 <= width <= 128
            &&& match g.signals@[signal as int].data {
                SignalData::Lit { value } => match value {
                    Value::Bool(_) => true,
                    Value::U32(x) => x < pow2(width as nat),
                    Value::U64(x) => x < pow2(width as nat),
                    Value::U128(x) => x < pow2(width as nat),
                },
                SignalData::Input { .. } => true,
                SignalData::Reg { next } => next is None || wide(next->0, width as int),
                SignalData::UnOp { source, .. } => wide(source, width as int),
                SignalData::BinOp { lhs, rhs, op } => {
                    let source_width = g.signals@[lhs as int].bit_width as int;
                    &&& wide(lhs, source_width)
                    &&& wide(rhs, source_width)
                    &&& match op {
                        BinOp::Add | BinOp::BitAnd | BinOp::BitOr | BinOp::BitXor => width
                            == source_width,
                        BinOp::Equal
                        | BinOp::NotEqual
                        | BinOp::LessThan
                        | BinOp::LessThanEqual
                        | BinOp::GreaterThan
                        | BinOp::GreaterThanEqual => width == 1,
                    }
                },
                SignalData::Bits { source, range_high, range_low } => {
                    &&& source < g.signals@.len()
                    &&& range_low <= range_high < g.signals@[source as int].bit_width
                    &&& width == range_high - range_low + 1
                },
                SignalData::Repeat { source, count } => {
                    &&& source < g.signals@.len()
                    &&& count >= 1
                    &&& width == g.signals@[source as int].bit_width * count
                },
                SignalData::Concat { lhs, rhs } => {
                    &&& lhs < g.signals@.len()
                    &&& rhs < g.signals@.len()
                    &&& width == g.signals@[lhs as int].bit_width + g.signals@[
                        rhs as int
                    ].bit_width
                },
                SignalData::Mux { a, b, sel } => wide(a, width as int) && wide(b, width as int)
                    && wide(sel, 1),
                SignalData::InstanceOutput { instance, name } => {
                    let module = g.instances@[instance as int].instantiated_module;
                    &&& instance < g.instances@.len()
                    &&& module < g.modules@.len()
                    &&& g.modules@[module as int].outputs@.contains_key(name@)
                    &&& wide(g.modules@[module as int].outputs@[name@], width as int)
                },
            }
        }),
        g.wf() <==> forall|s: usize| s < g.signals@.len() ==> #[trigger] g.signal_wf(s),
{
    let width = g.signals@[signal as int].bit_width;
    if let SignalData::Lit { value } = g.signals@[signal as int].data {
        if 1 <= width <= 128 {
            fits_below(value.number(), width);
            if let Value::Bool(_) = value {
                lemma2_to64();
                if width > 1 {
                    lemma_pow2_strictly_increases(1, width as nat);
                }
            }
        }
    }
}

/// What it takes for the widths of a signal to be in range, part by part.
pub proof fn sized_signals_have_parts_in_range(g: Graph, signal: usize)
    ensures
        g.sized(signal) <==> ({
            let in_range = |part: usize|
                part < g.signals@.len() && 1 <= g.signals@[part as int].bit_width <= 128;
            &&& in_range(signal)
            &&& match g.signals@[signal as int].data {
                SignalData::UnOp { source, .. } | SignalData::Bits { source, .. } => in_range(
                    source,
                ),
                SignalData::BinOp { lhs, .. } => in_range(lhs),
                SignalData::Repeat { source, count } => in_range(source) && (count - 1)
                    * g.signals@[source as int].bit_width <= u32::MAX,
                SignalData::Concat { lhs, rhs } => in_range(lhs) && in_range(rhs),
                SignalData::Lit { .. }
                | SignalData::Input { .. }
                | SignalData::Reg { .. }
                | SignalData::Mux { .. }
                | SignalData::InstanceOutput { .. } => true,
            }
        }),
{
}

/// Dependence, step by step: on the parts of a signal, and behind a register on its next
/// value.
pub proof fn dependence_is_on_the_parts(g: Graph, from: Node, to: Node, steps: nat)
    ensures
        leads(g, from, to) <==> from.signal < g.signals@.len() && (match g.signals@[
            from.signal as int
        ].data {
            SignalData::Lit { .. } => false,
            SignalData::Input { name } => {
                &&& from.path.len() > 0
                &&& from.path.last() < g.instances@.len()
                &&& g.instances@[from.path.last() as int].driven_inputs@.contains_key(name@)
                &&& to.path == from.path.drop_last()
                &&& to.signal == g.instances@[from.path.last() as int].driven_inputs@[name@]
            },
            SignalData::Reg { next } => next == Some(to.signal) && to.path == from.path,
            SignalData::UnOp { source, .. }
            | SignalData::Bits { source, .. }
            | SignalData::Repeat { source, .. } => to.signal == source && to.path == from.path,
            SignalData::BinOp { lhs, rhs, .. } | SignalData::Concat { lhs, rhs } => (to.signal
                == lhs || to.signal == rhs) && to.path == from.path,
            SignalData::Mux { a, b, sel } => (to.signal == a || to.signal == b || to.signal == sel)
                && to.path == from.path,
            SignalData::InstanceOutput { instance, name } => {
                let module = g.instances@[instance as int].instantiated_module;
                &&& instance < g.instances@.len()
                &&& module < g.modules@.len()
                &&& g.modules@[module as int].outputs@.contains_key(name@)
                &&& to.path == from.path.push(instance)
                &&& to.signal == g.modules@[module as int].outputs@[name@]
            },
        }),
        depends(g, from, to, 0) <==> from == to,
        depends(g, from, to, steps + 1) <==> exists|via: Node| #[trigger]
            leads(g, from, via) && depends(g, via, to, steps),
        depends_on_register(g, from, to) <==> (g.signals@[to.signal as int].data is Reg && exists|
            n: nat|
            #[trigger] depends(g, from, to, n)),
{
    let beside = |signal: usize| Node { path: from.path, signal };
    match g.signals@[from.signal as int].data {
        SignalData::UnOp { source, .. }
        | SignalData::Bits { source, .. }
        | SignalData::Repeat { source, .. } => {
            assert(seq![beside(source)][0] == beside(source));
        },
        SignalData::BinOp { lhs, rhs, .. } | SignalData::Concat { lhs, rhs } => {
            let nodes = seq![beside(lhs), beside(rhs)];
            assert(nodes[0] == beside(lhs) && nodes[1] == beside(rhs));
        },
        SignalData::Mux { a, b, sel } => {
            let nodes = seq![beside(b), beside(a), beside(sel)];
            assert(nodes[0] == beside(b) && nodes[1] == beside(a) && nodes[2] == beside(sel));
        },
        SignalData::Input { name } => {
            let via = Node {
                path: from.path.drop_last(),
                signal: g.instances@[from.path.last() as int].driven_inputs@[name@],
            };
            assert(seq![via][0] == via);
        },
        SignalData::InstanceOutput { instance, name } => {
            let module = g.instances@[instance as int].instantiated_module;
            let via = Node {
                path: from.path.push(instance),
                signal: g.modules@[module as int].outputs@[name@],
            };
            assert(seq![via][0] == via);
        },
        _ => {},
    }
}

} // verus!
