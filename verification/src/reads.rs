//! The order of assignments: each local is assigned before it is read.

use crate::graph::{BinOp, Graph, Node, SignalData};
use crate::growth::{
    converted_extends, joined_copies_extends, lower_grows, shifted_extends, temp_extends,
};
use crate::il;
use crate::il::{AssignmentView, ExprView, RefScope, TargetScope, ValueType};
use crate::lowering::{
    bin_op, binary, combine, converted, joined_copies, lower, lower_all, lower_bin_op,
    lower_concat, lowered, lowers, masked, op_input_type, operands, shifted, temp, State,
};
use vstd::prelude::*;

verus! {

/// Whether all locals that `expr` reads are among `names`.
pub open spec fn reads_only(expr: ExprView, names: Set<Seq<char>>) -> bool
    decreases expr,
{
    match expr {
        ExprView::Value { .. } => true,
        ExprView::Ref { name, scope } => scope == RefScope::Local ==> names.contains(name),
        ExprView::UnOp { source, .. } => reads_only(*source, names),
        ExprView::BinOp { lhs, rhs, .. } => reads_only(*lhs, names) && reads_only(*rhs, names),
        ExprView::Ternary { lhs, rhs, cond } => {
            &&& reads_only(*lhs, names)
            &&& reads_only(*rhs, names)
            &&& reads_only(*cond, names)
        },
        ExprView::Cast { source, .. } => reads_only(*source, names),
    }
}

/// The locals that `assignments` assign.
pub open spec fn assigned(assignments: Seq<AssignmentView>) -> Set<Seq<char>> {
    Set::new(
        |name: Seq<char>|
            exists|i: int|
                0 <= i < assignments.len() && (#[trigger] assignments[i]).target_scope
                    == TargetScope::Local && assignments[i].target_name == name,
    )
}

/// Whether each assignment to a local reads only locals that are assigned before it, and
/// each expression that was compiled reads only locals that are assigned. Assignments to
/// members may read what they like.
pub open spec fn assigned_before_read(st: State) -> bool {
    &&& forall|i: int|
        0 <= i < st.assignments.len() && (#[trigger] st.assignments[i]).target_scope
            == TargetScope::Local ==> reads_only(
            st.assignments[i].expr,
            assigned(st.assignments.take(i)),
        )
    &&& forall|n: Node| #[trigger]
        st.exprs.contains_key(n) ==> reads_only(st.exprs[n], assigned(st.assignments))
}

/// Whether the assignments are in order, and `expr` reads only locals that they assign.
spec fn in_order(st: State, expr: ExprView) -> bool {
    assigned_before_read(st) && reads_only(expr, assigned(st.assignments))
}

proof fn reads_more(expr: ExprView, names: Set<Seq<char>>, more: Set<Seq<char>>)
    requires
        reads_only(expr, names),
        names.subset_of(more),
    ensures
        reads_only(expr, more),
    decreases expr,
{
    match expr {
        ExprView::Value { .. } => {},
        ExprView::Ref { .. } => {},
        ExprView::UnOp { source, .. } => {
            reads_more(*source, names, more);
        },
        ExprView::BinOp { lhs, rhs, .. } => {
            reads_more(*lhs, names, more);
            reads_more(*rhs, names, more);
        },
        ExprView::Ternary { lhs, rhs, cond } => {
            reads_more(*lhs, names, more);
            reads_more(*rhs, names, more);
            reads_more(*cond, names, more);
        },
        ExprView::Cast { source, .. } => {
            reads_more(*source, names, more);
        },
    }
}

/// More assignments assign no fewer locals.
proof fn assigned_more(some: Seq<AssignmentView>, more: Seq<AssignmentView>)
    requires
        some.is_prefix_of(more),
    ensures
        assigned(some).subset_of(assigned(more)),
{
    assert forall|name: Seq<char>| assigned(some).contains(name) implies assigned(more).contains(
        name,
    ) by {
        let i = choose|i: int|
            0 <= i < some.len() && (#[trigger] some[i]).target_scope == TargetScope::Local
                && some[i].target_name == name;
        assert(more[i] == some[i]);
    }
}

/// What an expression reads is still assigned after more assignments.
proof fn reads_later(a: State, b: State, expr: ExprView)
    requires
        a.assignments.is_prefix_of(b.assignments),
        reads_only(expr, assigned(a.assignments)),
    ensures
        reads_only(expr, assigned(b.assignments)),
{
    assigned_more(a.assignments, b.assignments);
    reads_more(expr, assigned(a.assignments), assigned(b.assignments));
}

proof fn temp_in_order(st: State, expr: ExprView)
    requires
        in_order(st, expr),
    ensures
        in_order(temp(st, expr).0, temp(st, expr).1),
{
    let (st1, reference) = temp(st, expr);
    let n = st.assignments.len() as int;
    temp_extends(st, expr);
    assigned_more(st.assignments, st1.assignments);
    assert forall|i: int|
        0 <= i < st1.assignments.len() && (#[trigger] st1.assignments[i]).target_scope
            == TargetScope::Local implies reads_only(
        st1.assignments[i].expr,
        assigned(st1.assignments.take(i)),
    ) by {
        assert(st1.assignments.take(i) =~= st.assignments.take(i));
        if i < n {
            assert(st1.assignments[i] == st.assignments[i]);
        } else {
            assert(st.assignments.take(n) =~= st.assignments);
        }
    }
    assert forall|m: Node| #[trigger] st1.exprs.contains_key(m) implies reads_only(
        st1.exprs[m],
        assigned(st1.assignments),
    ) by {
        assert(st.exprs.contains_key(m));
        reads_later(st, st1, st.exprs[m]);
    }
    assert(st1.assignments[n].target_scope == TargetScope::Local);
}

proof fn masked_in_order(st: State, expr: ExprView, bit_width: u32, target_type: ValueType)
    requires
        in_order(st, expr),
    ensures
        in_order(
            masked(st, expr, bit_width, target_type).0,
            masked(st, expr, bit_width, target_type).1,
        ),
{
    if bit_width != target_type.bits() {
        let value = ExprView::Value {
            value: il::Value::of(target_type, crate::graph::mask(bit_width)),
        };
        assert(reads_only(value, assigned(st.assignments)));
        temp_in_order(st, binary(expr, value, il::BinOp::BitAnd));
    }
}

proof fn shifted_in_order(st: State, expr: ExprView, shift: u32, op: il::BinOp)
    requires
        in_order(st, expr),
    ensures
        in_order(shifted(st, expr, shift, op).0, shifted(st, expr, shift, op).1),
{
    if shift != 0 {
        let value = ExprView::Value { value: il::Value::U32(shift) };
        assert(reads_only(value, assigned(st.assignments)));
        temp_in_order(st, binary(expr, value, op));
    }
}

proof fn converted_in_order(
    st: State,
    expr: ExprView,
    source_type: ValueType,
    target_type: ValueType,
)
    requires
        in_order(st, expr),
    ensures
        in_order(
            converted(st, expr, source_type, target_type).0,
            converted(st, expr, source_type, target_type).1,
        ),
{
    if source_type != target_type {
        if target_type == ValueType::Bool {
            let (st1, e1) = masked(st, expr, 1, source_type);
            masked_in_order(st, expr, 1, source_type);
            let value = ExprView::Value { value: il::Value::of(source_type, 0) };
            assert(reads_only(value, assigned(st1.assignments)));
            temp_in_order(st1, binary(e1, value, il::BinOp::NotEqual));
        } else {
            temp_in_order(st, ExprView::Cast { source: Box::new(expr), target_type });
        }
    }
}

proof fn lower_bin_op_in_order(
    st: State,
    lhs: ExprView,
    rhs: ExprView,
    op: BinOp,
    source_width: u32,
    target_width: u32,
)
    requires
        in_order(st, lhs),
        in_order(st, rhs),
    ensures
        ({
            let (after, expr) = lower_bin_op(st, lhs, rhs, op, source_width, target_width);
            in_order(after, expr)
        }),
{
    let source_type = ValueType::holding(source_width);
    let input_type = op_input_type(op, source_type);
    let output_type = if op.is_comparison() {
        ValueType::Bool
    } else {
        input_type
    };
    let target_type = ValueType::holding(target_width);
    let (st1, l) = converted(st, lhs, source_type, input_type);
    let (st2, r) = converted(st1, rhs, source_type, input_type);
    let (st3, e3) = temp(st2, binary(l, r, bin_op(op)));
    let (st4, e4) = converted(st3, e3, output_type, target_type);
    converted_in_order(st, lhs, source_type, input_type);
    converted_extends(st, lhs, source_type, input_type);
    reads_later(st, st1, rhs);
    converted_in_order(st1, rhs, source_type, input_type);
    converted_extends(st1, rhs, source_type, input_type);
    reads_later(st1, st2, l);
    temp_in_order(st2, binary(l, r, bin_op(op)));
    converted_in_order(st3, e3, output_type, target_type);
    masked_in_order(st4, e4, target_width, target_type);
}

proof fn joined_copies_in_order(
    st: State,
    first: ExprView,
    source: ExprView,
    source_width: u32,
    count: nat,
)
    requires
        in_order(st, first),
        in_order(st, source),
    ensures
        ({
            let (after, expr) = joined_copies(st, first, source, source_width, count);
            in_order(after, expr)
        }),
    decreases count,
{
    if count > 1 {
        let less = (count - 1) as nat;
        let shift = ((count - 1) * source_width) as u32;
        let (st1, e1) = joined_copies(st, first, source, source_width, less);
        let (st2, copy) = shifted(st1, source, shift, il::BinOp::Shl);
        joined_copies_in_order(st, first, source, source_width, less);
        joined_copies_extends(st, first, source, source_width, less);
        reads_later(st, st1, source);
        shifted_in_order(st1, source, shift, il::BinOp::Shl);
        shifted_extends(st1, source, shift, il::BinOp::Shl);
        reads_later(st1, st2, e1);
        temp_in_order(st2, binary(e1, copy, il::BinOp::BitOr));
    }
}

proof fn lower_concat_in_order(
    st: State,
    lhs: ExprView,
    rhs: ExprView,
    lhs_width: u32,
    rhs_width: u32,
    target_width: u32,
)
    requires
        in_order(st, lhs),
        in_order(st, rhs),
    ensures
        ({
            let (after, expr) = lower_concat(st, lhs, rhs, lhs_width, rhs_width, target_width);
            in_order(after, expr)
        }),
{
    let (lhs_type, rhs_type) = (ValueType::holding(lhs_width), ValueType::holding(rhs_width));
    let target_type = ValueType::holding(target_width);
    let (st1, l1) = converted(st, lhs, lhs_type, target_type);
    let (st2, r) = converted(st1, rhs, rhs_type, target_type);
    let (st3, l2) = shifted(st2, l1, rhs_width, il::BinOp::Shl);
    converted_in_order(st, lhs, lhs_type, target_type);
    converted_extends(st, lhs, lhs_type, target_type);
    reads_later(st, st1, rhs);
    converted_in_order(st1, rhs, rhs_type, target_type);
    converted_extends(st1, rhs, rhs_type, target_type);
    reads_later(st1, st2, l1);
    shifted_in_order(st2, l1, rhs_width, il::BinOp::Shl);
    shifted_extends(st2, l1, rhs_width, il::BinOp::Shl);
    reads_later(st2, st3, r);
    temp_in_order(st3, binary(l2, r, il::BinOp::BitOr));
}

/// Whether the assignments are in order, and `exprs` read only locals that they assign.
spec fn all_in_order(st: State, exprs: Seq<ExprView>) -> bool {
    &&& assigned_before_read(st)
    &&& forall|i: int|
        0 <= i < exprs.len() ==> reads_only(#[trigger] exprs[i], assigned(st.assignments))
}

proof fn combine_in_order(g: Graph, node: Node, st: State, exprs: Seq<ExprView>)
    requires
        operands(g, node) is Some,
        exprs.len() == operands(g, node)->0.len(),
        all_in_order(st, exprs),
    ensures
        in_order(combine(g, node, st, exprs).0, combine(g, node, st, exprs).1),
{
    let width = g.width(node.signal);
    match g.data(node.signal) {
        SignalData::Lit { .. } => {},
        SignalData::Input { name } => {
            if node.path.len() == 0 {
                let expr = ExprView::Ref { name: name@, scope: RefScope::Member };
                masked_in_order(st, expr, width, ValueType::holding(width));
            } else {
                assert(in_order(st, exprs[0]));
            }
        },
        SignalData::Reg { .. } => {},
        SignalData::UnOp { source, .. } => {
            let expr = ExprView::UnOp { source: Box::new(exprs[0]), op: il::UnOp::Not };
            assert(in_order(st, exprs[0]));
            temp_in_order(st, expr);
            let (st1, e1) = temp(st, expr);
            masked_in_order(st1, e1, g.width(source), ValueType::holding(g.width(source)));
        },
        SignalData::BinOp { lhs, op, .. } => {
            assert(in_order(st, exprs[0]) && in_order(st, exprs[1]));
            lower_bin_op_in_order(st, exprs[0], exprs[1], op, g.width(lhs), width);
        },
        SignalData::Bits { source, range_low, .. } => {
            let (source_type, target_type) = (
                ValueType::holding(g.width(source)),
                ValueType::holding(width),
            );
            assert(in_order(st, exprs[0]));
            shifted_in_order(st, exprs[0], range_low, il::BinOp::Shr);
            let (st1, e1) = shifted(st, exprs[0], range_low, il::BinOp::Shr);
            converted_in_order(st1, e1, source_type, target_type);
            let (st2, e2) = converted(st1, e1, source_type, target_type);
            masked_in_order(st2, e2, width, target_type);
        },
        SignalData::Repeat { source, count } => {
            let (source_type, target_type) = (
                ValueType::holding(g.width(source)),
                ValueType::holding(width),
            );
            assert(in_order(st, exprs[0]));
            converted_in_order(st, exprs[0], source_type, target_type);
            let (st1, e1) = converted(st, exprs[0], source_type, target_type);
            joined_copies_in_order(st1, e1, e1, g.width(source), count as nat);
        },
        SignalData::Concat { lhs, rhs } => {
            assert(in_order(st, exprs[0]) && in_order(st, exprs[1]));
            lower_concat_in_order(st, exprs[0], exprs[1], g.width(lhs), g.width(rhs), width);
        },
        SignalData::Mux { .. } => {
            assert(in_order(st, exprs[0]) && in_order(st, exprs[1]) && in_order(st, exprs[2]));
            temp_in_order(
                st,
                ExprView::Ternary {
                    lhs: Box::new(exprs[0]),
                    rhs: Box::new(exprs[1]),
                    cond: Box::new(exprs[2]),
                },
            );
        },
        SignalData::InstanceOutput { .. } => {
            assert(in_order(st, exprs[0]));
        },
    }
}

proof fn lower_in_order(g: Graph, st: State, node: Node, depth: nat)
    requires
        assigned_before_read(st),
        lower(g, st, node, depth) is Some,
    ensures
        in_order((lower(g, st, node, depth)->0).0, (lower(g, st, node, depth)->0).1),
    decreases depth, 0nat,
{
    if !st.exprs.contains_key(node) {
        let nodes = operands(g, node)->0;
        let less = (depth - 1) as nat;
        lower_all_in_order(g, st, nodes, less);
        let (st1, exprs) = lower_all(g, st, nodes, less)->0;
        combine_in_order(g, node, st1, exprs);
        let (st2, expr) = combine(g, node, st1, exprs);
        let st3 = st2.remember(node, expr);
        assert forall|n: Node| #[trigger] st3.exprs.contains_key(n) implies reads_only(
            st3.exprs[n],
            assigned(st3.assignments),
        ) by {
            if n != node {
                assert(st2.exprs.contains_key(n));
            }
        }
    }
}

proof fn lower_all_in_order(g: Graph, st: State, nodes: Seq<Node>, depth: nat)
    requires
        assigned_before_read(st),
        lower_all(g, st, nodes, depth) is Some,
    ensures
        ({
            let (after, exprs) = lower_all(g, st, nodes, depth)->0;
            exprs.len() == nodes.len() && all_in_order(after, exprs)
        }),
    decreases depth, nodes.len() + 1,
{
    if nodes.len() > 0 {
        let front = nodes.drop_last();
        lower_all_in_order(g, st, front, depth);
        let (st1, exprs1) = lower_all(g, st, front, depth)->0;
        lower_in_order(g, st1, nodes.last(), depth);
        lower_grows(g, st1, nodes.last(), depth);
        let (st2, expr) = lower(g, st1, nodes.last(), depth)->0;
        let exprs = exprs1.push(expr);
        assert forall|i: int| 0 <= i < exprs.len() implies reads_only(
            #[trigger] exprs[i],
            assigned(st2.assignments),
        ) by {
            if i < exprs1.len() {
                assert(exprs[i] == exprs1[i]);
                reads_later(st1, st2, exprs1[i]);
            }
        }
    }
}

/// Compiling keeps the assignments in order: each local is assigned before it is read on the
/// way to another. The expression that comes out reads only locals that are assigned.
pub proof fn locals_are_assigned_before_they_are_read(g: Graph, st: State, node: Node)
    requires
        assigned_before_read(st),
        lowers(g, st, node),
    ensures
        assigned_before_read(lowered(g, st, node).0),
        reads_only(lowered(g, st, node).1, assigned(lowered(g, st, node).0.assignments)),
{
    let depth = choose|depth: nat| (#[trigger] lower(g, st, node, depth)) is Some;
    lower_in_order(g, st, node, depth);
}

/// Before anything is compiled, nothing is read.
pub proof fn nothing_compiled_is_read()
    ensures
        assigned_before_read(State::empty()),
{
}

} // verus!
