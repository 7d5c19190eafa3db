//! What the compiler makes of a design: which expression stands for a signal, which
//! assignments come before it, and which names the registers get.

use crate::graph::{mask, BinOp, Graph, Node, SignalData};
use crate::il;
use crate::il::{AssignmentView, ExprView, RefScope, TargetScope, ValueType};
use crate::name::{reg_next_name, reg_value_name, temp_name};
use vstd::prelude::*;

verus! {

/// The names of the two members that hold a register.
pub struct RegNamesView {
    pub value_name: Seq<char>,
    pub next_name: Seq<char>,
}

/// The names of the register that is found as number `n`.
pub open spec fn reg_names(n: nat) -> RegNamesView {
    RegNamesView { value_name: reg_value_name(n), next_name: reg_next_name(n) }
}

/// What a compiler has made so far.
pub struct State {
    /// The registers that were found, with their names.
    pub regs: Map<Node, RegNamesView>,
    /// The signals that were compiled, with their expressions.
    pub exprs: Map<Node, ExprView>,
    /// The assignments, in the order in which they take effect.
    pub assignments: Seq<AssignmentView>,
    /// The number of temporaries.
    pub temps: nat,
}

impl State {
    /// Nothing made yet.
    pub open spec fn empty() -> State {
        State { regs: Map::empty(), exprs: Map::empty(), assignments: Seq::empty(), temps: 0 }
    }

    /// This state, in which `expr` stands for `node`.
    pub open spec fn remember(self, node: Node, expr: ExprView) -> State {
        State { exprs: self.exprs.insert(node, expr), ..self }
    }
}

/// The signals that `node` is computed from, in the order in which they are compiled.
/// A register is computed from none: its value is stored. Neither is an input at the
/// top. An input inside an instance is computed from the signal outside that drives it,
/// and an instance's output from a signal inside.
///
/// `None` where an input inside an instance has no driver.
pub open spec fn operands(g: Graph, node: Node) -> Option<Seq<Node>> {
    match g.data(node.signal) {
        SignalData::Lit { .. } => Some(seq![]),
        SignalData::Input { name } => if node.path.len() == 0 {
            Some(seq![])
        } else {
            match g.driver(node.path.last(), name@) {
                Some(driver) => Some(seq![Node { path: node.path.drop_last(), signal: driver }]),
                None => None,
            }
        },
        SignalData::Reg { .. } => Some(seq![]),
        SignalData::UnOp { source, .. } => Some(seq![node.beside(source)]),
        SignalData::BinOp { lhs, rhs, .. } => Some(seq![node.beside(lhs), node.beside(rhs)]),
        SignalData::Bits { source, .. } => Some(seq![node.beside(source)]),
        SignalData::Repeat { source, .. } => Some(seq![node.beside(source)]),
        SignalData::Concat { lhs, rhs } => Some(seq![node.beside(lhs), node.beside(rhs)]),
        SignalData::Mux { a, b, sel } => Some(
            seq![node.beside(b), node.beside(a), node.beside(sel)],
        ),
        SignalData::InstanceOutput { instance, name } => match g.output(instance, name@) {
            Some(output) => Some(seq![Node { path: node.path.push(instance), signal: output }]),
            None => None,
        },
    }
}

/// The assignment of `expr` to a new temporary, and a reference to that.
pub open spec fn temp(st: State, expr: ExprView) -> (State, ExprView) {
    let name = temp_name(st.temps);
    (
        State {
            assignments: st.assignments.push(
                AssignmentView { target_scope: TargetScope::Local, target_name: name, expr },
            ),
            temps: st.temps + 1,
            ..st
        },
        ExprView::Ref { name, scope: RefScope::Local },
    )
}

/// The expression `lhs op rhs`.
pub open spec fn binary(lhs: ExprView, rhs: ExprView, op: il::BinOp) -> ExprView {
    ExprView::BinOp { lhs: Box::new(lhs), rhs: Box::new(rhs), op }
}

/// `expr`, of type `target_type`, cut to its low `bit_width` bits.
pub open spec fn masked(st: State, expr: ExprView, bit_width: u32, target_type: ValueType) -> (
    State,
    ExprView,
) {
    if bit_width == target_type.bits() {
        (st, expr)
    } else {
        temp(
            st,
            binary(
                expr,
                ExprView::Value { value: il::Value::of(target_type, mask(bit_width)) },
                il::BinOp::BitAnd,
            ),
        )
    }
}

/// `expr` shifted by a constant number of bits.
pub open spec fn shifted(st: State, expr: ExprView, shift: u32, op: il::BinOp) -> (
    State,
    ExprView,
) {
    if shift == 0 {
        (st, expr)
    } else {
        temp(st, binary(expr, ExprView::Value { value: il::Value::U32(shift) }, op))
    }
}

/// `expr`, of type `source_type`, as a value of type `target_type`.
pub open spec fn converted(
    st: State,
    expr: ExprView,
    source_type: ValueType,
    target_type: ValueType,
) -> (State, ExprView) {
    if source_type == target_type {
        (st, expr)
    } else if target_type == ValueType::Bool {
        let (st, expr) = masked(st, expr, 1, source_type);
        temp(
            st,
            binary(
                expr,
                ExprView::Value { value: il::Value::of(source_type, 0) },
                il::BinOp::NotEqual,
            ),
        )
    } else {
        temp(st, ExprView::Cast { source: Box::new(expr), target_type })
    }
}

/// The operation of the intermediate language that computes `op`.
pub open spec fn bin_op(op: BinOp) -> il::BinOp {
    match op {
        BinOp::Add => il::BinOp::Add,
        BinOp::BitAnd => il::BinOp::BitAnd,
        BinOp::BitOr => il::BinOp::BitOr,
        BinOp::BitXor => il::BinOp::BitXor,
        BinOp::Equal => il::BinOp::Equal,
        BinOp::NotEqual => il::BinOp::NotEqual,
        BinOp::LessThan => il::BinOp::LessThan,
        BinOp::LessThanEqual => il::BinOp::LessThanEqual,
        BinOp::GreaterThan => il::BinOp::GreaterThan,
        BinOp::GreaterThanEqual => il::BinOp::GreaterThanEqual,
    }
}

/// The type that `op` is computed in, for operands of type `source_type`: their own,
/// but for sums of single bits.
pub open spec fn op_input_type(op: BinOp, source_type: ValueType) -> ValueType {
    if op == BinOp::Add && source_type == ValueType::Bool {
        ValueType::U32
    } else {
        source_type
    }
}

/// The complement of `source`, which is `bit_width` bits wide.
pub open spec fn lower_un_op(st: State, source: ExprView, bit_width: u32) -> (State, ExprView) {
    let (st, expr) = temp(
        st,
        ExprView::UnOp { source: Box::new(source), op: il::UnOp::Not },
    );
    masked(st, expr, bit_width, ValueType::holding(bit_width))
}

/// `lhs op rhs` for operands of `source_width` bits, as `target_width` bits.
pub open spec fn lower_bin_op(
    st: State,
    lhs: ExprView,
    rhs: ExprView,
    op: BinOp,
    source_width: u32,
    target_width: u32,
) -> (State, ExprView) {
    let source_type = ValueType::holding(source_width);
    let input_type = op_input_type(op, source_type);
    let output_type = if op.is_comparison() {
        ValueType::Bool
    } else {
        input_type
    };
    let target_type = ValueType::holding(target_width);
    let (st, lhs) = converted(st, lhs, source_type, input_type);
    let (st, rhs) = converted(st, rhs, source_type, input_type);
    let (st, expr) = temp(st, binary(lhs, rhs, bin_op(op)));
    let (st, expr) = converted(st, expr, output_type, target_type);
    masked(st, expr, target_width, target_type)
}

/// `target_width` bits of `source`, which is `source_width` bits wide, from `range_low` up.
pub open spec fn lower_bits(
    st: State,
    source: ExprView,
    range_low: u32,
    source_width: u32,
    target_width: u32,
) -> (State, ExprView) {
    let target_type = ValueType::holding(target_width);
    let (st, expr) = shifted(st, source, range_low, il::BinOp::Shr);
    let (st, expr) = converted(st, expr, ValueType::holding(source_width), target_type);
    masked(st, expr, target_width, target_type)
}

/// `first` joined with the copies of `source` number 1 up to `count - 1`, each shifted
/// to its place.
pub open spec fn joined_copies(
    st: State,
    first: ExprView,
    source: ExprView,
    source_width: u32,
    count: nat,
) -> (State, ExprView)
    decreases count,
{
    if count <= 1 {
        (st, first)
    } else {
        let (st, expr) = joined_copies(st, first, source, source_width, (count - 1) as nat);
        let (st, copy) = shifted(st, source, ((count - 1) * source_width) as u32, il::BinOp::Shl);
        temp(st, binary(expr, copy, il::BinOp::BitOr))
    }
}

/// `count` copies of `source`, which is `source_width` bits wide, side by side in
/// `target_width` bits.
pub open spec fn lower_repeat(
    st: State,
    source: ExprView,
    count: u32,
    source_width: u32,
    target_width: u32,
) -> (State, ExprView) {
    let (st, expr) = converted(
        st,
        source,
        ValueType::holding(source_width),
        ValueType::holding(target_width),
    );
    joined_copies(st, expr, expr, source_width, count as nat)
}

/// `lhs` above `rhs`, in `target_width` bits.
pub open spec fn lower_concat(
    st: State,
    lhs: ExprView,
    rhs: ExprView,
    lhs_width: u32,
    rhs_width: u32,
    target_width: u32,
) -> (State, ExprView) {
    let target_type = ValueType::holding(target_width);
    let (st, lhs) = converted(st, lhs, ValueType::holding(lhs_width), target_type);
    let (st, rhs) = converted(st, rhs, ValueType::holding(rhs_width), target_type);
    let (st, lhs) = shifted(st, lhs, rhs_width, il::BinOp::Shl);
    temp(st, binary(lhs, rhs, il::BinOp::BitOr))
}

/// `lhs` where `cond` holds, else `rhs`.
pub open spec fn lower_mux(st: State, lhs: ExprView, rhs: ExprView, cond: ExprView) -> (
    State,
    ExprView,
) {
    temp(
        st,
        ExprView::Ternary { lhs: Box::new(lhs), rhs: Box::new(rhs), cond: Box::new(cond) },
    )
}

/// The constant of type `target_type` for a literal: a single bit is set where the literal
/// is not zero, wider constants take the low bits.
pub open spec fn literal(number: u128, target_type: ValueType) -> il::Value {
    match target_type {
        ValueType::Bool => il::Value::Bool(number != 0),
        _ => il::Value::of(target_type, number),
    }
}

/// The expression for `node`, once `exprs` stand for its operands, and the state after
/// the assignments that it needs.
pub open spec fn combine(g: Graph, node: Node, st: State, exprs: Seq<ExprView>) -> (
    State,
    ExprView,
) {
    let width = g.width(node.signal);
    match g.data(node.signal) {
        SignalData::Lit { value } => (
            st,
            ExprView::Value { value: literal(value.number(), ValueType::holding(width)) },
        ),
        SignalData::Input { name } => if node.path.len() == 0 {
            masked(
                st,
                ExprView::Ref { name: name@, scope: RefScope::Member },
                width,
                ValueType::holding(width),
            )
        } else {
            (st, exprs[0])
        },
        SignalData::Reg { .. } => (
            st,
            ExprView::Ref { name: st.regs[node].value_name, scope: RefScope::Member },
        ),
        SignalData::UnOp { source, .. } => lower_un_op(st, exprs[0], g.width(source)),
        SignalData::BinOp { lhs, op, .. } => lower_bin_op(
            st,
            exprs[0],
            exprs[1],
            op,
            g.width(lhs),
            width,
        ),
        SignalData::Bits { source, range_low, .. } => lower_bits(
            st,
            exprs[0],
            range_low,
            g.width(source),
            width,
        ),
        SignalData::Repeat { source, count } => lower_repeat(
            st,
            exprs[0],
            count,
            g.width(source),
            width,
        ),
        SignalData::Concat { lhs, rhs } => lower_concat(
            st,
            exprs[0],
            exprs[1],
            g.width(lhs),
            g.width(rhs),
            width,
        ),
        SignalData::Mux { .. } => lower_mux(st, exprs[0], exprs[1], exprs[2]),
        SignalData::InstanceOutput { .. } => (st, exprs[0]),
    }
}

/// The expression for `node`, and the state after the assignments that it needs. A
/// signal that was compiled before keeps its expression and needs no more assignments.
///
/// `None` where more than `depth` signals lie on a path from `node` to a signal that is
/// computed from none, and where an input has no driver, a register has no name or a width
/// is out of range.
pub open spec fn lower(g: Graph, st: State, node: Node, depth: nat) -> Option<(State, ExprView)>
    decreases depth, 0nat,
{
    if depth == 0 || !g.has(node.signal) {
        None
    } else if st.exprs.contains_key(node) {
        Some((st, st.exprs[node]))
    } else if !g.sized(node.signal) || (g.data(node.signal) is Reg && !st.regs.contains_key(node)) {
        None
    } else {
        match operands(g, node) {
            Some(nodes) => match lower_all(g, st, nodes, (depth - 1) as nat) {
                Some((st, exprs)) => {
                    let (st, expr) = combine(g, node, st, exprs);
                    Some((st.remember(node, expr), expr))
                },
                None => None,
            },
            None => None,
        }
    }
}

/// The expressions for `nodes`, compiled one after the other.
pub open spec fn lower_all(g: Graph, st: State, nodes: Seq<Node>, depth: nat) -> Option<
    (State, Seq<ExprView>),
>
    decreases depth, nodes.len() + 1,
{
    if nodes.len() == 0 {
        Some((st, seq![]))
    } else {
        match lower_all(g, st, nodes.drop_last(), depth) {
            Some((st, exprs)) => match lower(g, st, nodes.last(), depth) {
                Some((st, expr)) => Some((st, exprs.push(expr))),
                None => None,
            },
            None => None,
        }
    }
}

/// Whether `node` can be compiled: no path from it to a signal that is computed from
/// none goes on forever, each input on the way has a driver and each register a name, and
/// all widths are in range.
pub open spec fn lowers(g: Graph, st: State, node: Node) -> bool {
    exists|depth: nat| (#[trigger] lower(g, st, node, depth)) is Some
}

/// The expression for `node`, and the state after the assignments that it needs.
pub open spec fn lowered(g: Graph, st: State, node: Node) -> (State, ExprView)
    recommends
        lowers(g, st, node),
{
    lower(g, st, node, choose|depth: nat| (#[trigger] lower(g, st, node, depth)) is Some)->0
}

/// The signals that a search for registers goes on to from `node`, in their order.
pub open spec fn search_order(g: Graph, node: Node) -> Option<Seq<Node>> {
    match g.data(node.signal) {
        SignalData::Mux { a, b, sel } => Some(
            seq![node.beside(sel), node.beside(b), node.beside(a)],
        ),
        _ => operands(g, node),
    }
}

/// The registers that have names after a search from `node`. A register that had no name
/// gets the next one, and the search goes on behind it; one that had a name keeps it, and
/// the search ends there.
///
/// `None` where the search goes over more than `depth` signals in a row, and where it
/// meets an input without a driver or a register without a next value.
pub open spec fn gather(
    g: Graph,
    regs: Map<Node, RegNamesView>,
    node: Node,
    depth: nat,
) -> Option<Map<Node, RegNamesView>>
    decreases depth, 0nat,
{
    if depth == 0 || !g.has(node.signal) {
        None
    } else {
        match g.data(node.signal) {
            SignalData::Reg { next } => if regs.contains_key(node) {
                Some(regs)
            } else {
                match next {
                    Some(next) => gather(
                        g,
                        regs.insert(node, reg_names(regs.len())),
                        node.beside(next),
                        (depth - 1) as nat,
                    ),
                    None => None,
                }
            },
            _ => match search_order(g, node) {
                Some(nodes) => gather_all(g, regs, nodes, (depth - 1) as nat),
                None => None,
            },
        }
    }
}

/// The registers that have names after searches from `nodes`, one after the other.
pub open spec fn gather_all(
    g: Graph,
    regs: Map<Node, RegNamesView>,
    nodes: Seq<Node>,
    depth: nat,
) -> Option<Map<Node, RegNamesView>>
    decreases depth, nodes.len() + 1,
{
    if nodes.len() == 0 {
        Some(regs)
    } else {
        match gather_all(g, regs, nodes.drop_last(), depth) {
            Some(regs) => gather(g, regs, nodes.last(), depth),
            None => None,
        }
    }
}

/// Whether a search for registers from `node` comes to an end.
pub open spec fn gathers(g: Graph, regs: Map<Node, RegNamesView>, node: Node) -> bool {
    exists|depth: nat| (#[trigger] gather(g, regs, node, depth)) is Some
}

/// The registers that have names after a search from `node`.
pub open spec fn gathered(g: Graph, regs: Map<Node, RegNamesView>, node: Node) -> Map<
    Node,
    RegNamesView,
>
    recommends
        gathers(g, regs, node),
{
    gather(g, regs, node, choose|depth: nat| (#[trigger] gather(g, regs, node, depth)) is Some)->0
}

/// A search that ends within some depth has the same outcome within any greater one.
pub proof fn gather_depth(
    g: Graph,
    regs: Map<Node, RegNamesView>,
    node: Node,
    depth: nat,
    more: nat,
)
    requires
        gather(g, regs, node, depth) is Some,
        depth <= more,
    ensures
        gather(g, regs, node, more) == gather(g, regs, node, depth),
    decreases depth, 0nat,
{
    match g.data(node.signal) {
        SignalData::Reg { next } => {
            if !regs.contains_key(node) {
                gather_depth(
                    g,
                    regs.insert(node, reg_names(regs.len())),
                    node.beside(next->0),
                    (depth - 1) as nat,
                    (more - 1) as nat,
                );
            }
        },
        _ => {
            gather_all_depth(
                g,
                regs,
                search_order(g, node)->0,
                (depth - 1) as nat,
                (more - 1) as nat,
            );
        },
    }
}

/// Searches that end within some depth have the same outcome within any greater one.
pub proof fn gather_all_depth(
    g: Graph,
    regs: Map<Node, RegNamesView>,
    nodes: Seq<Node>,
    depth: nat,
    more: nat,
)
    requires
        gather_all(g, regs, nodes, depth) is Some,
        depth <= more,
    ensures
        gather_all(g, regs, nodes, more) == gather_all(g, regs, nodes, depth),
    decreases depth, nodes.len() + 1,
{
    if nodes.len() > 0 {
        gather_all_depth(g, regs, nodes.drop_last(), depth, more);
        gather_depth(
            g,
            gather_all(g, regs, nodes.drop_last(), depth)->0,
            nodes.last(),
            depth,
            more,
        );
    }
}

/// A signal that can be compiled within some depth is compiled alike within any greater one.
pub proof fn lower_depth(g: Graph, st: State, node: Node, depth: nat, more: nat)
    requires
        lower(g, st, node, depth) is Some,
        depth <= more,
    ensures
        lower(g, st, node, more) == lower(g, st, node, depth),
    decreases depth, 0nat,
{
    if !st.exprs.contains_key(node) {
        lower_all_depth(g, st, operands(g, node)->0, (depth - 1) as nat, (more - 1) as nat);
    }
}

proof fn lower_all_depth(g: Graph, st: State, nodes: Seq<Node>, depth: nat, more: nat)
    requires
        lower_all(g, st, nodes, depth) is Some,
        depth <= more,
    ensures
        lower_all(g, st, nodes, more) == lower_all(g, st, nodes, depth),
    decreases depth, nodes.len() + 1,
{
    if nodes.len() > 0 {
        lower_all_depth(g, st, nodes.drop_last(), depth, more);
        lower_depth(
            g,
            (lower_all(g, st, nodes.drop_last(), depth)->0).0,
            nodes.last(),
            depth,
            more,
        );
    }
}

/// A depth within which a signal can be compiled shows what it is compiled to.
pub proof fn lowered_within(g: Graph, st: State, node: Node, depth: nat)
    requires
        lower(g, st, node, depth) is Some,
    ensures
        lowers(g, st, node),
        lower(g, st, node, depth) == Some(lowered(g, st, node)),
{
    let chosen = choose|depth: nat| (#[trigger] lower(g, st, node, depth)) is Some;
    if chosen <= depth {
        lower_depth(g, st, node, chosen, depth);
    } else {
        lower_depth(g, st, node, depth, chosen);
    }
}

/// A depth within which a search ends shows what it finds.
pub proof fn gathered_within(g: Graph, regs: Map<Node, RegNamesView>, node: Node, depth: nat)
    requires
        gather(g, regs, node, depth) is Some,
    ensures
        gathers(g, regs, node),
        gather(g, regs, node, depth) == Some(gathered(g, regs, node)),
{
    let chosen = choose|depth: nat| (#[trigger] gather(g, regs, node, depth)) is Some;
    if chosen <= depth {
        gather_depth(g, regs, node, chosen, depth);
    } else {
        gather_depth(g, regs, node, depth, chosen);
    }
}

/// Compiling one signal in a row.
pub proof fn lower_one(g: Graph, st: State, a: Node, depth: nat)
    ensures
        lower_all(g, st, seq![a], depth) == (match lower(g, st, a, depth) {
            Some((st, expr)) => Some((st, seq![expr])),
            None => None,
        }),
{
    reveal_with_fuel(lower_all, 2);
    assert(seq![a].drop_last() =~= seq![]);
    assert forall|expr: ExprView| seq![].push(expr) =~= #[trigger] seq![expr] by {}
}

/// Compiling two signals in a row.
pub proof fn lower_two(g: Graph, st: State, a: Node, b: Node, depth: nat)
    ensures
        lower_all(g, st, seq![a, b], depth) == (match lower(g, st, a, depth) {
            Some((st, first)) => match lower(g, st, b, depth) {
                Some((st, second)) => Some((st, seq![first, second])),
                None => None,
            },
            None => None,
        }),
{
    lower_one(g, st, a, depth);
    assert(seq![a, b].drop_last() =~= seq![a]);
    if let Some((st, first)) = lower(g, st, a, depth) {
        if let Some((st, second)) = lower(g, st, b, depth) {
            assert(seq![first].push(second) =~= seq![first, second]);
        }
    }
}

/// Compiling three signals in a row.
pub proof fn lower_three(g: Graph, st: State, a: Node, b: Node, c: Node, depth: nat)
    ensures
        lower_all(g, st, seq![a, b, c], depth) == (match lower(g, st, a, depth) {
            Some((st, first)) => match lower(g, st, b, depth) {
                Some((st, second)) => match lower(g, st, c, depth) {
                    Some((st, third)) => Some((st, seq![first, second, third])),
                    None => None,
                },
                None => None,
            },
            None => None,
        }),
{
    lower_two(g, st, a, b, depth);
    assert(seq![a, b, c].drop_last() =~= seq![a, b]);
    if let Some((st, first)) = lower(g, st, a, depth) {
        if let Some((st, second)) = lower(g, st, b, depth) {
            if let Some((st, third)) = lower(g, st, c, depth) {
                assert(seq![first, second].push(third) =~= seq![first, second, third]);
            }
        }
    }
}

/// Searching from no signal, from one, and from two and three in a row.
pub proof fn gather_in_a_row(
    g: Graph,
    regs: Map<Node, RegNamesView>,
    a: Node,
    b: Node,
    c: Node,
    depth: nat,
)
    ensures
        gather_all(g, regs, seq![], depth) == Some(regs),
        gather_all(g, regs, seq![a], depth) == gather(g, regs, a, depth),
        gather_all(g, regs, seq![a, b], depth) == (match gather(g, regs, a, depth) {
            Some(regs) => gather(g, regs, b, depth),
            None => None,
        }),
        gather_all(g, regs, seq![a, b, c], depth) == (match gather(g, regs, a, depth) {
            Some(regs) => match gather(g, regs, b, depth) {
                Some(regs) => gather(g, regs, c, depth),
                None => None,
            },
            None => None,
        }),
{
    reveal_with_fuel(gather_all, 4);
    assert(seq![a].drop_last() =~= seq![]);
    assert(seq![a, b].drop_last() =~= seq![a]);
    assert(seq![a, b, c].drop_last() =~= seq![a, b]);
}

} // verus!
