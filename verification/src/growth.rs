//! What compiling and searching keep: how the state after relates to the state before.

use crate::graph::{BinOp, Graph, Node, SignalData};
use crate::il;
use crate::il::{ExprView, TargetScope, ValueType};
use crate::lowering::{
    bin_op, binary, combine, converted, joined_copies, lower, lower_all, lower_bin_op, lower_bits,
    lower_concat, lower_repeat, lower_un_op, masked, op_input_type, operands, shifted, temp, State,
};
use crate::name::temp_name;
use vstd::prelude::*;

verus! {

/// Whether `b` has the assignments of `a` and, after them, one to each of the temporaries
/// that it has over `a`, in the order of their numbers.
pub open spec fn adds_temps(a: State, b: State) -> bool {
    &&& a.regs == b.regs
    &&& a.assignments.is_prefix_of(b.assignments)
    &&& b.temps - a.temps == b.assignments.len() - a.assignments.len()
    &&& forall|i: int|
        a.assignments.len() <= i < b.assignments.len() ==> {
            &&& (#[trigger] b.assignments[i]).target_scope == TargetScope::Local
            &&& b.assignments[i].target_name == temp_name(
                (a.temps + i - a.assignments.len()) as nat,
            )
        }
}

/// Whether `b` is `a` with more temporaries.
pub open spec fn extends(a: State, b: State) -> bool {
    adds_temps(a, b) && a.exprs == b.exprs
}

/// Whether `b` is `a` with more temporaries and more signals compiled.
pub open spec fn grows(a: State, b: State) -> bool {
    adds_temps(a, b) && a.exprs.submap_of(b.exprs)
}

proof fn adds_temps_trans(a: State, b: State, c: State)
    requires
        adds_temps(a, b),
        adds_temps(b, c),
    ensures
        adds_temps(a, c),
{
    let (n, m) = (a.assignments.len() as int, b.assignments.len() as int);
    assert forall|i: int| 0 <= i < m implies b.assignments[i] == c.assignments[i] by {}
    assert forall|i: int| 0 <= i < n implies a.assignments[i] == c.assignments[i] by {
        assert(a.assignments[i] == b.assignments[i]);
    }
    assert(a.assignments =~= c.assignments.subrange(0, n));
    assert forall|i: int| n <= i < c.assignments.len() implies {
        &&& (#[trigger] c.assignments[i]).target_scope == TargetScope::Local
        &&& c.assignments[i].target_name == temp_name((a.temps + i - n) as nat)
    } by {
        if i < m {
            assert(c.assignments[i] == b.assignments[i]);
        }
    }
}

/// What extends an extension of a state extends that state.
pub proof fn extends_trans(a: State, b: State, c: State)
    requires
        extends(a, b),
        extends(b, c),
    ensures
        extends(a, c),
{
    adds_temps_trans(a, b, c);
}

/// A state that has grown from a grown one has grown from the first.
pub proof fn grows_trans(a: State, b: State, c: State)
    requires
        grows(a, b),
        grows(b, c),
    ensures
        grows(a, c),
{
    adds_temps_trans(a, b, c);
    vstd::map_lib::lemma_submap_of_trans(a.exprs, b.exprs, c.exprs);
}

/// A new temporary extends the state.
pub proof fn temp_extends(st: State, expr: ExprView)
    ensures
        extends(st, temp(st, expr).0),
{
    assert(st.assignments =~= temp(st, expr).0.assignments.subrange(
        0,
        st.assignments.len() as int,
    ));
}

proof fn extends_self(st: State)
    ensures
        extends(st, st),
{
    assert(st.assignments =~= st.assignments.subrange(0, st.assignments.len() as int));
}

/// A mask extends the state.
pub proof fn masked_extends(st: State, expr: ExprView, bit_width: u32, target_type: ValueType)
    ensures
        extends(st, masked(st, expr, bit_width, target_type).0),
{
    extends_self(st);
    temp_extends(
        st,
        binary(
            expr,
            ExprView::Value {
                value: il::Value::of(target_type, crate::graph::mask(bit_width)),
            },
            il::BinOp::BitAnd,
        ),
    );
}

/// A shift extends the state.
pub proof fn shifted_extends(st: State, expr: ExprView, shift: u32, op: il::BinOp)
    ensures
        extends(st, shifted(st, expr, shift, op).0),
{
    extends_self(st);
    temp_extends(st, binary(expr, ExprView::Value { value: il::Value::U32(shift) }, op));
}

/// A conversion extends the state.
pub proof fn converted_extends(
    st: State,
    expr: ExprView,
    source_type: ValueType,
    target_type: ValueType,
)
    ensures
        extends(st, converted(st, expr, source_type, target_type).0),
{
    extends_self(st);
    temp_extends(st, ExprView::Cast { source: Box::new(expr), target_type });
    masked_extends(st, expr, 1, source_type);
    let (st1, expr1) = masked(st, expr, 1, source_type);
    let test = binary(
        expr1,
        ExprView::Value { value: il::Value::of(source_type, 0) },
        il::BinOp::NotEqual,
    );
    temp_extends(st1, test);
    extends_trans(st, st1, temp(st1, test).0);
}

/// Joining more copies takes no fewer temporaries.
pub proof fn joined_copies_temps(
    st: State,
    first: ExprView,
    source: ExprView,
    source_width: u32,
    fewer: nat,
    count: nat,
)
    requires
        fewer <= count,
    ensures
        joined_copies(st, first, source, source_width, fewer).0.temps <= joined_copies(
            st,
            first,
            source,
            source_width,
            count,
        ).0.temps,
        st.temps <= joined_copies(st, first, source, source_width, fewer).0.temps,
    decreases count,
{
    if fewer < count {
        joined_copies_temps(st, first, source, source_width, fewer, (count - 1) as nat);
    } else if count > 1 {
        joined_copies_temps(
            st,
            first,
            source,
            source_width,
            (count - 1) as nat,
            (count - 1) as nat,
        );
    }
}

/// Joining copies extends the state.
pub proof fn joined_copies_extends(
    st: State,
    first: ExprView,
    source: ExprView,
    source_width: u32,
    count: nat,
)
    ensures
        extends(st, joined_copies(st, first, source, source_width, count).0),
    decreases count,
{
    if count <= 1 {
        extends_self(st);
    } else {
        joined_copies_extends(st, first, source, source_width, (count - 1) as nat);
        let (st1, expr) = joined_copies(st, first, source, source_width, (count - 1) as nat);
        let shift = ((count - 1) * source_width) as u32;
        shifted_extends(st1, source, shift, il::BinOp::Shl);
        let (st2, copy) = shifted(st1, source, shift, il::BinOp::Shl);
        let join = binary(expr, copy, il::BinOp::BitOr);
        temp_extends(st2, join);
        extends_trans(st, st1, st2);
        extends_trans(st, st2, temp(st2, join).0);
    }
}

proof fn lower_un_op_extends(st: State, source: ExprView, bit_width: u32)
    ensures
        extends(st, lower_un_op(st, source, bit_width).0),
{
    let not = ExprView::UnOp { source: Box::new(source), op: il::UnOp::Not };
    temp_extends(st, not);
    let (st1, expr) = temp(st, not);
    masked_extends(st1, expr, bit_width, ValueType::holding(bit_width));
    extends_trans(st, st1, lower_un_op(st, source, bit_width).0);
}

proof fn lower_bin_op_extends(
    st: State,
    lhs: ExprView,
    rhs: ExprView,
    op: BinOp,
    source_width: u32,
    target_width: u32,
)
    ensures
        extends(st, lower_bin_op(st, lhs, rhs, op, source_width, target_width).0),
{
    let source_type = ValueType::holding(source_width);
    let input_type = op_input_type(op, source_type);
    let output_type = if op.is_comparison() {
        ValueType::Bool
    } else {
        input_type
    };
    let target_type = ValueType::holding(target_width);
    let (st1, l) = converted(st, lhs, source_type, input_type);
    let (st2, r) = converted(st1, rhs, source_type, input_type);
    let (st3, e3) = temp(st2, binary(l, r, bin_op(op)));
    let (st4, e4) = converted(st3, e3, output_type, target_type);
    converted_extends(st, lhs, source_type, input_type);
    converted_extends(st1, rhs, source_type, input_type);
    extends_trans(st, st1, st2);
    temp_extends(st2, binary(l, r, bin_op(op)));
    extends_trans(st, st2, st3);
    converted_extends(st3, e3, output_type, target_type);
    extends_trans(st, st3, st4);
    masked_extends(st4, e4, target_width, target_type);
    extends_trans(st, st4, masked(st4, e4, target_width, target_type).0);
}

proof fn lower_bits_extends(
    st: State,
    source: ExprView,
    range_low: u32,
    source_width: u32,
    target_width: u32,
)
    ensures
        extends(st, lower_bits(st, source, range_low, source_width, target_width).0),
{
    let source_type = ValueType::holding(source_width);
    let target_type = ValueType::holding(target_width);
    let (st1, e1) = shifted(st, source, range_low, il::BinOp::Shr);
    let (st2, e2) = converted(st1, e1, source_type, target_type);
    shifted_extends(st, source, range_low, il::BinOp::Shr);
    converted_extends(st1, e1, source_type, target_type);
    extends_trans(st, st1, st2);
    masked_extends(st2, e2, target_width, target_type);
    extends_trans(st, st2, masked(st2, e2, target_width, target_type).0);
}

proof fn lower_repeat_extends(
    st: State,
    source: ExprView,
    count: u32,
    source_width: u32,
    target_width: u32,
)
    ensures
        extends(st, lower_repeat(st, source, count, source_width, target_width).0),
{
    let source_type = ValueType::holding(source_width);
    let target_type = ValueType::holding(target_width);
    let (st1, e1) = converted(st, source, source_type, target_type);
    converted_extends(st, source, source_type, target_type);
    joined_copies_extends(st1, e1, e1, source_width, count as nat);
    extends_trans(st, st1, joined_copies(st1, e1, e1, source_width, count as nat).0);
}

proof fn lower_concat_extends(
    st: State,
    lhs: ExprView,
    rhs: ExprView,
    lhs_width: u32,
    rhs_width: u32,
    target_width: u32,
)
    ensures
        extends(st, lower_concat(st, lhs, rhs, lhs_width, rhs_width, target_width).0),
{
    let target_type = ValueType::holding(target_width);
    let (st1, l1) = converted(st, lhs, ValueType::holding(lhs_width), target_type);
    let (st2, r) = converted(st1, rhs, ValueType::holding(rhs_width), target_type);
    let (st3, l2) = shifted(st2, l1, rhs_width, il::BinOp::Shl);
    converted_extends(st, lhs, ValueType::holding(lhs_width), target_type);
    converted_extends(st1, rhs, ValueType::holding(rhs_width), target_type);
    extends_trans(st, st1, st2);
    shifted_extends(st2, l1, rhs_width, il::BinOp::Shl);
    extends_trans(st, st2, st3);
    temp_extends(st3, binary(l2, r, il::BinOp::BitOr));
    extends_trans(st, st3, temp(st3, binary(l2, r, il::BinOp::BitOr)).0);
}

/// The expression for a signal needs only assignments to new temporaries.
pub proof fn combine_extends(g: Graph, node: Node, st: State, exprs: Seq<ExprView>)
    ensures
        extends(st, combine(g, node, st, exprs).0),
{
    let width = g.width(node.signal);
    extends_self(st);
    match g.data(node.signal) {
        SignalData::Input { name } => {
            masked_extends(
                st,
                ExprView::Ref { name: name@, scope: il::RefScope::Member },
                width,
                ValueType::holding(width),
            );
        },
        SignalData::UnOp { source, .. } => {
            lower_un_op_extends(st, exprs[0], g.width(source));
        },
        SignalData::BinOp { lhs, op, .. } => {
            lower_bin_op_extends(st, exprs[0], exprs[1], op, g.width(lhs), width);
        },
        SignalData::Bits { source, range_low, .. } => {
            lower_bits_extends(st, exprs[0], range_low, g.width(source), width);
        },
        SignalData::Repeat { source, count } => {
            lower_repeat_extends(st, exprs[0], count, g.width(source), width);
        },
        SignalData::Concat { lhs, rhs } => {
            lower_concat_extends(
                st,
                exprs[0],
                exprs[1],
                g.width(lhs),
                g.width(rhs),
                width,
            );
        },
        SignalData::Mux { .. } => {
            temp_extends(
                st,
                ExprView::Ternary {
                    lhs: Box::new(exprs[0]),
                    rhs: Box::new(exprs[1]),
                    cond: Box::new(exprs[2]),
                },
            );
        },
        _ => {},
    }
}

/// Compiling a signal changes no name of a register, no expression of a signal that was
/// compiled before and no assignment that was made before. It adds assignments to
/// temporaries, one for each new one.
pub proof fn lower_grows(g: Graph, st: State, node: Node, depth: nat)
    requires
        lower(g, st, node, depth) is Some,
    ensures
        grows(st, (lower(g, st, node, depth)->0).0),
        (lower(g, st, node, depth)->0).0.exprs.contains_pair(
            node,
            (lower(g, st, node, depth)->0).1,
        ),
    decreases depth, 0nat,
{
    extends_self(st);
    if !st.exprs.contains_key(node) {
        let nodes = operands(g, node)->0;
        lower_all_grows(g, st, nodes, (depth - 1) as nat);
        let (st1, exprs) = lower_all(g, st, nodes, (depth - 1) as nat)->0;
        combine_extends(g, node, st1, exprs);
        let (st2, expr) = combine(g, node, st1, exprs);
        grows_trans(st, st1, st2);
        let st3 = st2.remember(node, expr);
        assert(st.exprs.submap_of(st3.exprs));
    }
}

/// Compiling signals one after the other lets the state grow.
pub proof fn lower_all_grows(g: Graph, st: State, nodes: Seq<Node>, depth: nat)
    requires
        lower_all(g, st, nodes, depth) is Some,
    ensures
        grows(st, (lower_all(g, st, nodes, depth)->0).0),
        (lower_all(g, st, nodes, depth)->0).1.len() == nodes.len(),
    decreases depth, nodes.len() + 1,
{
    extends_self(st);
    if nodes.len() > 0 {
        lower_all_grows(g, st, nodes.drop_last(), depth);
        let st1 = (lower_all(g, st, nodes.drop_last(), depth)->0).0;
        lower_grows(g, st1, nodes.last(), depth);
        grows_trans(st, st1, (lower(g, st1, nodes.last(), depth)->0).0);
    }
}

} // verus!
