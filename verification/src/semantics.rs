//! What signals and expressions are worth: the value of a signal of a design, and the
//! value of an expression after a sequence of assignments.

use crate::graph::{fits, mask, BinOp, Graph, Node, SignalData};
use crate::il;
use crate::il::{AssignmentView, ExprView, RefScope, TargetScope, UnOp, ValueType};
use crate::lowering::operands;
use vstd::prelude::*;

verus! {

/// What a design is fed with: the values of the members for its inputs, by name, and
/// the values that its registers hold.
pub struct Stimulus {
    pub ports: Map<Seq<char>, il::Value>,
    pub regs: Map<Node, u128>,
}

/// The word that holds the low `count` copies of `value`, each `width` bits wide.
pub open spec fn copies(value: u128, width: u32, count: nat) -> u128
    decreases count,
{
    if count == 0 {
        0
    } else {
        copies(value, width, (count - 1) as nat) | (value << (((count - 1) * width) as u32))
    }
}

/// The value of `a op b` in `width` bits.
pub open spec fn bin_op_value(op: BinOp, a: u128, b: u128, width: u32) -> u128 {
    match op {
        BinOp::Add => ((a + b) as u128) & mask(width),
        BinOp::BitAnd => a & b,
        BinOp::BitOr => a | b,
        BinOp::BitXor => a ^ b,
        BinOp::Equal => if a == b {
            1
        } else {
            0
        },
        BinOp::NotEqual => if a != b {
            1
        } else {
            0
        },
        BinOp::LessThan => if a < b {
            1
        } else {
            0
        },
        BinOp::LessThanEqual => if a <= b {
            1
        } else {
            0
        },
        BinOp::GreaterThan => if a > b {
            1
        } else {
            0
        },
        BinOp::GreaterThanEqual => if a >= b {
            1
        } else {
            0
        },
    }
}

/// The value of `node`, where `values` are those of its operands. `None` where an input is
/// not as wide as its driver, and where the stimulus has no value of the right type for an
/// input or a register.
pub open spec fn operation_value(
    g: Graph,
    stimulus: Stimulus,
    node: Node,
    values: Seq<u128>,
) -> Option<u128> {
    let width = g.width(node.signal);
    match g.data(node.signal) {
        SignalData::Lit { value } => Some(value.number()),
        SignalData::Input { name } => if node.path.len() > 0 {
            match g.driver(node.path.last(), name@) {
                Some(driver) => if g.width(driver) == width {
                    Some(values[0])
                } else {
                    None
                },
                None => None,
            }
        } else if stimulus.ports.contains_key(name@) && stimulus.ports[name@].value_type()
            == ValueType::holding(width) {
            Some(stimulus.ports[name@].word() & mask(width))
        } else {
            None
        },
        SignalData::Reg { .. } => if stimulus.regs.contains_key(node) && fits(
            stimulus.regs[node],
            width,
        ) {
            Some(stimulus.regs[node])
        } else {
            None
        },
        SignalData::UnOp { .. } => Some(!values[0] & mask(width)),
        SignalData::BinOp { op, .. } => Some(bin_op_value(op, values[0], values[1], width)),
        SignalData::Bits { range_low, .. } => Some((values[0] >> range_low) & mask(width)),
        SignalData::Repeat { source, count } => Some(
            copies(values[0], g.width(source), count as nat),
        ),
        SignalData::Concat { rhs, .. } => Some((values[0] << g.width(rhs)) | values[1]),
        SignalData::Mux { .. } => Some(
            if values[2] == 1 {
                values[0]
            } else {
                values[1]
            },
        ),
        SignalData::InstanceOutput { .. } => Some(values[0]),
    }
}

/// The value of `node` in a design that is fed with `stimulus`. `None` where more than
/// `depth` signals lie on a path from `node` to a signal that is computed from none, where
/// a signal on the way does not agree with its parts in width,
/// where an input has no driver of its own width, and where the stimulus has no value for
/// an input or a register.
pub open spec fn signal_value(g: Graph, stimulus: Stimulus, node: Node, depth: nat) -> Option<u128>
    decreases depth, 0nat,
{
    if depth == 0 || !g.has(node.signal) || !g.signal_wf(node.signal) {
        None
    } else {
        match operands(g, node) {
            Some(nodes) => match signal_values(g, stimulus, nodes, (depth - 1) as nat) {
                Some(values) => operation_value(g, stimulus, node, values),
                None => None,
            },
            None => None,
        }
    }
}

/// The values of `nodes`.
pub open spec fn signal_values(
    g: Graph,
    stimulus: Stimulus,
    nodes: Seq<Node>,
    depth: nat,
) -> Option<Seq<u128>>
    decreases depth, nodes.len() + 1,
{
    if nodes.len() == 0 {
        Some(seq![])
    } else {
        match (
            signal_values(g, stimulus, nodes.drop_last(), depth),
            signal_value(g, stimulus, nodes.last(), depth),
        ) {
            (Some(values), Some(value)) => Some(values.push(value)),
            _ => None,
        }
    }
}

/// The value of `lhs op rhs`. Sums wrap around; so do shifts to the left. `None` where
/// the types do not fit, and where a shift is by the width of the type or more.
pub open spec fn binary_value(op: il::BinOp, lhs: il::Value, rhs: il::Value) -> Option<il::Value> {
    let value_type = lhs.value_type();
    let (a, b) = (lhs.word(), rhs.word());
    if op == il::BinOp::Shl || op == il::BinOp::Shr {
        if value_type != ValueType::Bool && rhs.value_type() == ValueType::U32 && b
            < value_type.bits() {
            Some(
                il::Value::of(
                    value_type,
                    if op == il::BinOp::Shl {
                        a << (b as u32)
                    } else {
                        a >> (b as u32)
                    },
                ),
            )
        } else {
            None
        }
    } else if value_type != rhs.value_type() {
        None
    } else {
        match op {
            il::BinOp::Add => if value_type == ValueType::Bool {
                None
            } else {
                Some(il::Value::of(value_type, (a + b) as u128))
            },
            il::BinOp::BitAnd => Some(il::Value::of(value_type, a & b)),
            il::BinOp::BitOr => Some(il::Value::of(value_type, a | b)),
            il::BinOp::BitXor => Some(il::Value::of(value_type, a ^ b)),
            il::BinOp::Equal => Some(il::Value::Bool(a == b)),
            il::BinOp::NotEqual => Some(il::Value::Bool(a != b)),
            il::BinOp::LessThan => Some(il::Value::Bool(a < b)),
            il::BinOp::LessThanEqual => Some(il::Value::Bool(a <= b)),
            il::BinOp::GreaterThan => Some(il::Value::Bool(a > b)),
            il::BinOp::GreaterThanEqual => Some(il::Value::Bool(a >= b)),
            il::BinOp::Shl | il::BinOp::Shr => None,
        }
    }
}

/// The value of `expr`, where `members` and `locals` hold the values of the names.
/// `None` where a name has no value and where the types do not fit.
pub open spec fn eval(
    members: Map<Seq<char>, il::Value>,
    locals: Map<Seq<char>, il::Value>,
    expr: ExprView,
) -> Option<il::Value>
    decreases expr,
{
    match expr {
        ExprView::Value { value } => Some(value),
        ExprView::Ref { name, scope } => {
            let scoped = match scope {
                RefScope::Local => locals,
                RefScope::Member => members,
            };
            if scoped.contains_key(name) {
                Some(scoped[name])
            } else {
                None
            }
        },
        ExprView::UnOp { source, op } => match (eval(members, locals, *source), op) {
            (Some(value), UnOp::Not) => Some(il::Value::of(value.value_type(), !value.word())),
            _ => None,
        },
        ExprView::BinOp { lhs, rhs, op } => match (
            eval(members, locals, *lhs),
            eval(members, locals, *rhs),
        ) {
            (Some(lhs), Some(rhs)) => binary_value(op, lhs, rhs),
            _ => None,
        },
        ExprView::Ternary { lhs, rhs, cond } => match eval(members, locals, *cond) {
            Some(il::Value::Bool(holds)) => if holds {
                eval(members, locals, *lhs)
            } else {
                eval(members, locals, *rhs)
            },
            _ => None,
        },
        ExprView::Cast { source, target_type } => match eval(members, locals, *source) {
            Some(value) => if target_type == ValueType::Bool {
                None
            } else {
                Some(il::Value::of(target_type, value.word()))
            },
            None => None,
        },
    }
}

/// The values of the locals after `assignments`. `None` where an expression that is
/// assigned to a local has no value.
pub open spec fn run(
    members: Map<Seq<char>, il::Value>,
    locals: Map<Seq<char>, il::Value>,
    assignments: Seq<AssignmentView>,
) -> Option<Map<Seq<char>, il::Value>>
    decreases assignments.len(),
{
    if assignments.len() == 0 {
        Some(locals)
    } else {
        let last = assignments.last();
        match run(members, locals, assignments.drop_last()) {
            Some(locals) => match last.target_scope {
                TargetScope::Local => match eval(members, locals, last.expr) {
                    Some(value) => Some(locals.insert(last.target_name, value)),
                    None => None,
                },
                TargetScope::Member => Some(locals),
            },
            None => None,
        }
    }
}

} // verus!
