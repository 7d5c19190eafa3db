//! How much compiling takes: each signal is compiled once, with a bounded number of
//! temporaries.

use crate::graph::{BinOp, Graph, Node, SignalData};
use crate::growth::{combine_extends, lower_all_grows, lower_grows};
use crate::il;
use crate::il::{ExprView, ValueType};
use crate::lowering::{
    bin_op, binary, combine, converted, joined_copies, lower, lower_all, lower_bin_op, lower_bits,
    lower_concat, lowered, lowers, masked, op_input_type, operands, shifted, temp, State,
};
use crate::search::{ready, ready_more};
use vstd::prelude::*;

verus! {

/// The least depth within which a signal can be computed from stored values.
proof fn least_depth(g: Graph, regs: Set<Node>, node: Node, depth: nat) -> (least: nat)
    requires
        ready(g, regs, node, depth),
    ensures
        ready(g, regs, node, least),
        forall|d: nat| d < least ==> !#[trigger] ready(g, regs, node, d),
    decreases depth,
{
    if ready(g, regs, node, (depth - 1) as nat) {
        least_depth(g, regs, node, (depth - 1) as nat)
    } else {
        assert forall|d: nat| d < depth implies !#[trigger] ready(g, regs, node, d) by {
            if ready(g, regs, node, d) {
                ready_more(g, regs, regs, node, d, (depth - 1) as nat);
            }
        }
        depth
    }
}

/// The signals that are compiled on the way lie no deeper than the signal itself.
proof fn compiled_within(g: Graph, st: State, regs: Set<Node>, node: Node, depth: nat, k: nat)
    requires
        lower(g, st, node, depth) is Some,
        ready(g, regs, node, k),
    ensures
        forall|n: Node|
            #![trigger (lower(g, st, node, depth)->0).0.exprs.contains_key(n)]
            (lower(g, st, node, depth)->0).0.exprs.contains_key(n) && !st.exprs.contains_key(n)
                ==> ready(g, regs, n, k),
    decreases depth, 0nat,
{
    if !st.exprs.contains_key(node) {
        let nodes = operands(g, node)->0;
        let less = (depth - 1) as nat;
        let k_less = (k - 1) as nat;
        all_compiled_within(g, st, regs, nodes, less, k_less);
        let (st1, exprs) = lower_all(g, st, nodes, less)->0;
        combine_extends(g, node, st1, exprs);
        let after = (lower(g, st, node, depth)->0).0;
        assert forall|n: Node|
            #![trigger after.exprs.contains_key(n)]
            after.exprs.contains_key(n) && !st.exprs.contains_key(n) implies ready(
            g,
            regs,
            n,
            k,
        ) by {
            if n != node {
                assert(st1.exprs.contains_key(n));
                ready_more(g, regs, regs, n, k_less, k);
            }
        }
    }
}

proof fn all_compiled_within(
    g: Graph,
    st: State,
    regs: Set<Node>,
    nodes: Seq<Node>,
    depth: nat,
    k: nat,
)
    requires
        lower_all(g, st, nodes, depth) is Some,
        forall|i: int| 0 <= i < nodes.len() ==> ready(g, regs, #[trigger] nodes[i], k),
    ensures
        forall|n: Node|
            #![trigger (lower_all(g, st, nodes, depth)->0).0.exprs.contains_key(n)]
            (lower_all(g, st, nodes, depth)->0).0.exprs.contains_key(n) && !st.exprs.contains_key(
                n,
            ) ==> ready(g, regs, n, k),
    decreases depth, nodes.len() + 1,
{
    if nodes.len() > 0 {
        let front = nodes.drop_last();
        assert forall|i: int| 0 <= i < front.len() implies ready(
            g,
            regs,
            #[trigger] front[i],
            k,
        ) by {
            assert(front[i] == nodes[i]);
        }
        all_compiled_within(g, st, regs, front, depth, k);
        lower_all_grows(g, st, front, depth);
        let st1 = (lower_all(g, st, front, depth)->0).0;
        assert(ready(g, regs, nodes[nodes.len() - 1], k));
        compiled_within(g, st1, regs, nodes.last(), depth, k);
    }
}

/// A signal is not compiled on the way to itself.
pub proof fn compiled_after_operands(
    g: Graph,
    st: State,
    regs: Set<Node>,
    node: Node,
    depth: nat,
    k: nat,
)
    requires
        lower(g, st, node, depth) is Some,
        ready(g, regs, node, k),
        !st.exprs.contains_key(node),
    ensures
        !(lower_all(
            g,
            st,
            operands(g, node)->0,
            (depth - 1) as nat,
        )->0).0.exprs.contains_key(node),
{
    let least = least_depth(g, regs, node, k);
    let nodes = operands(g, node)->0;
    all_compiled_within(g, st, regs, nodes, (depth - 1) as nat, (least - 1) as nat);
    assert(!ready(g, regs, node, (least - 1) as nat));
}

/// The number of temporaries that a mask takes.
pub open spec fn mask_temps(bit_width: u32, target_type: ValueType) -> nat {
    if bit_width == target_type.bits() {
        0
    } else {
        1
    }
}

/// The number of temporaries that a conversion takes.
pub open spec fn cast_temps(source_type: ValueType, target_type: ValueType) -> nat {
    if source_type == target_type {
        0
    } else if target_type == ValueType::Bool {
        mask_temps(1, source_type) + 1
    } else {
        1
    }
}

/// The number of temporaries that a shift takes.
pub open spec fn shift_temps(shift: u32) -> nat {
    if shift == 0 {
        0
    } else {
        1
    }
}

/// The number of temporaries that a signal takes, besides those of its operands.
pub open spec fn operation_temps(g: Graph, node: Node) -> nat {
    let width = g.width(node.signal);
    let target_type = ValueType::holding(width);
    match g.data(node.signal) {
        SignalData::Lit { .. } => 0,
        SignalData::Input { .. } => if node.path.len() == 0 {
            mask_temps(width, target_type)
        } else {
            0
        },
        SignalData::Reg { .. } => 0,
        SignalData::UnOp { source, .. } => 1 + mask_temps(
            g.width(source),
            ValueType::holding(g.width(source)),
        ),
        SignalData::BinOp { lhs, op, .. } => {
            let source_type = ValueType::holding(g.width(lhs));
            let input_type = op_input_type(op, source_type);
            let output_type = if op.is_comparison() {
                ValueType::Bool
            } else {
                input_type
            };
            2 * cast_temps(source_type, input_type) + 1 + cast_temps(output_type, target_type)
                + mask_temps(width, target_type)
        },
        SignalData::Bits { source, range_low, .. } => shift_temps(range_low) + cast_temps(
            ValueType::holding(g.width(source)),
            target_type,
        ) + mask_temps(width, target_type),
        SignalData::Repeat { source, count } => cast_temps(
            ValueType::holding(g.width(source)),
            target_type,
        ) + if count == 0 {
            0
        } else {
            2 * (count - 1) as nat
        },
        SignalData::Concat { lhs, rhs } => cast_temps(
            ValueType::holding(g.width(lhs)),
            target_type,
        ) + cast_temps(ValueType::holding(g.width(rhs)), target_type) + shift_temps(g.width(rhs))
            + 1,
        SignalData::Mux { .. } => 1,
        SignalData::InstanceOutput { .. } => 0,
    }
}

proof fn converted_temps(
    st: State,
    expr: ExprView,
    source_type: ValueType,
    target_type: ValueType,
)
    ensures
        converted(st, expr, source_type, target_type).0.temps == st.temps + cast_temps(
            source_type,
            target_type,
        ),
{
}

proof fn joined_copies_take(
    st: State,
    first: ExprView,
    source: ExprView,
    source_width: u32,
    count: nat,
)
    requires
        source_width >= 1,
        (count - 1) * source_width <= u32::MAX,
    ensures
        joined_copies(st, first, source, source_width, count).0.temps == st.temps + if count == 0 {
            0
        } else {
            2 * (count - 1)
        },
    decreases count,
{
    if count > 1 {
        let less = (count - 1) as nat;
        assert(0 < (count - 1) * source_width && (less - 1) * source_width <= (count - 1)
            * source_width) by (nonlinear_arith)
            requires
                count > 1,
                less == count - 1,
                source_width >= 1,
        ;
        joined_copies_take(st, first, source, source_width, less);
    }
}

proof fn lower_bin_op_temps(
    st: State,
    lhs: ExprView,
    rhs: ExprView,
    op: BinOp,
    source_width: u32,
    target_width: u32,
)
    ensures
        ({
            let source_type = ValueType::holding(source_width);
            let input_type = op_input_type(op, source_type);
            let output_type = if op.is_comparison() {
                ValueType::Bool
            } else {
                input_type
            };
            let target_type = ValueType::holding(target_width);
            lower_bin_op(st, lhs, rhs, op, source_width, target_width).0.temps == st.temps + 2
                * cast_temps(source_type, input_type) + 1 + cast_temps(output_type, target_type)
                + mask_temps(target_width, target_type)
        }),
{
    let source_type = ValueType::holding(source_width);
    let input_type = op_input_type(op, source_type);
    let output_type = if op.is_comparison() {
        ValueType::Bool
    } else {
        input_type
    };
    let target_type = ValueType::holding(target_width);
    let (st1, l) = converted(st, lhs, source_type, input_type);
    let (st2, r) = converted(st1, rhs, source_type, input_type);
    let (st3, e3) = temp(st2, binary(l, r, bin_op(op)));
    let (st4, e4) = converted(st3, e3, output_type, target_type);
    converted_temps(st, lhs, source_type, input_type);
    converted_temps(st1, rhs, source_type, input_type);
    assert(st3.temps == st2.temps + 1);
    converted_temps(st3, e3, output_type, target_type);
    assert(masked(st4, e4, target_width, target_type).0.temps == st4.temps + mask_temps(
        target_width,
        target_type,
    ));
}

proof fn lower_bits_temps(
    st: State,
    source: ExprView,
    range_low: u32,
    source_width: u32,
    target_width: u32,
)
    ensures
        lower_bits(st, source, range_low, source_width, target_width).0.temps == st.temps
            + shift_temps(range_low) + cast_temps(
            ValueType::holding(source_width),
            ValueType::holding(target_width),
        ) + mask_temps(target_width, ValueType::holding(target_width)),
{
    let (source_type, target_type) = (
        ValueType::holding(source_width),
        ValueType::holding(target_width),
    );
    let (st1, e1) = shifted(st, source, range_low, il::BinOp::Shr);
    let (st2, e2) = converted(st1, e1, source_type, target_type);
    assert(st1.temps == st.temps + shift_temps(range_low));
    converted_temps(st1, e1, source_type, target_type);
    assert(masked(st2, e2, target_width, target_type).0.temps == st2.temps + mask_temps(
        target_width,
        target_type,
    ));
}

proof fn lower_concat_temps(
    st: State,
    lhs: ExprView,
    rhs: ExprView,
    lhs_width: u32,
    rhs_width: u32,
    target_width: u32,
)
    ensures
        lower_concat(st, lhs, rhs, lhs_width, rhs_width, target_width).0.temps == st.temps
            + cast_temps(ValueType::holding(lhs_width), ValueType::holding(target_width))
            + cast_temps(ValueType::holding(rhs_width), ValueType::holding(target_width))
            + shift_temps(rhs_width) + 1,
{
    let target_type = ValueType::holding(target_width);
    let (st1, l1) = converted(st, lhs, ValueType::holding(lhs_width), target_type);
    let (st2, r) = converted(st1, rhs, ValueType::holding(rhs_width), target_type);
    let (st3, l2) = shifted(st2, l1, rhs_width, il::BinOp::Shl);
    converted_temps(st, lhs, ValueType::holding(lhs_width), target_type);
    converted_temps(st1, rhs, ValueType::holding(rhs_width), target_type);
    assert(st3.temps == st2.temps + shift_temps(rhs_width));
    assert(temp(st3, binary(l2, r, il::BinOp::BitOr)).0.temps == st3.temps + 1);
}

/// Compiling a signal takes a number of temporaries that does not depend on what was compiled
/// before.
pub proof fn combine_temps(g: Graph, node: Node, st: State, exprs: Seq<ExprView>)
    requires
        g.sized(node.signal),
    ensures
        combine(g, node, st, exprs).0.temps == st.temps + operation_temps(g, node),
{
    let width = g.width(node.signal);
    match g.data(node.signal) {
        SignalData::BinOp { lhs, op, .. } => {
            lower_bin_op_temps(st, exprs[0], exprs[1], op, g.width(lhs), width);
        },
        SignalData::Bits { source, range_low, .. } => {
            lower_bits_temps(st, exprs[0], range_low, g.width(source), width);
        },
        SignalData::Repeat { source, count } => {
            let (source_type, target_type) = (
                ValueType::holding(g.width(source)),
                ValueType::holding(width),
            );
            let (st1, e1) = converted(st, exprs[0], source_type, target_type);
            converted_temps(st, exprs[0], source_type, target_type);
            joined_copies_take(st1, e1, e1, g.width(source), count as nat);
        },
        SignalData::Concat { lhs, rhs } => {
            lower_concat_temps(st, exprs[0], exprs[1], g.width(lhs), g.width(rhs), width);
        },
        _ => {},
    }
}

/// One operation takes at most 255 temporaries. A repetition of one bit up to the full
/// width takes as many: one to convert the bit and two for each further copy.
proof fn operation_takes_few(g: Graph, node: Node)
    requires
        g.signal_wf(node.signal),
        g.sized(node.signal),
    ensures
        operation_temps(g, node) <= 255,
{
    if let SignalData::Repeat { source, count } = g.data(node.signal) {
        let (source_width, width) = (g.width(source), g.width(node.signal));
        assert(count <= source_width * count) by (nonlinear_arith)
            requires
                source_width >= 1,
        ;
        if width == 1 {
            assert(source_width == 1) by (nonlinear_arith)
                requires
                    source_width * count == 1,
                    source_width >= 1,
                    count >= 1,
            ;
        }
    }
}

proof fn lower_count(
    g: Graph,
    st: State,
    regs: Set<Node>,
    node: Node,
    depth: nat,
    k: nat,
    nodes: Set<Node>,
)
    requires
        holds_operands(g, nodes),
        well_formed(g, nodes),
        nodes.contains(node),
        lower(g, st, node, depth) is Some,
        ready(g, regs, node, k),
        st.exprs.dom().finite(),
    ensures
        ({
            let after = (lower(g, st, node, depth)->0).0;
            &&& after.exprs.dom().finite()
            &&& after.temps - st.temps <= 255 * (after.exprs.len() - st.exprs.len())
        }),
    decreases depth, 0nat,
{
    if !st.exprs.contains_key(node) {
        let below = operands(g, node)->0;
        let less = (depth - 1) as nat;
        lower_all_count(g, st, regs, below, less, (k - 1) as nat, nodes);
        compiled_after_operands(g, st, regs, node, depth, k);
        let (st1, exprs) = lower_all(g, st, below, less)->0;
        combine_extends(g, node, st1, exprs);
        combine_temps(g, node, st1, exprs);
        operation_takes_few(g, node);
    }
}

proof fn lower_all_count(
    g: Graph,
    st: State,
    regs: Set<Node>,
    below: Seq<Node>,
    depth: nat,
    k: nat,
    nodes: Set<Node>,
)
    requires
        holds_operands(g, nodes),
        well_formed(g, nodes),
        forall|i: int| 0 <= i < below.len() ==> nodes.contains(#[trigger] below[i]),
        lower_all(g, st, below, depth) is Some,
        forall|i: int| 0 <= i < below.len() ==> ready(g, regs, #[trigger] below[i], k),
        st.exprs.dom().finite(),
    ensures
        ({
            let after = (lower_all(g, st, below, depth)->0).0;
            &&& after.exprs.dom().finite()
            &&& after.temps - st.temps <= 255 * (after.exprs.len() - st.exprs.len())
        }),
    decreases depth, below.len() + 1,
{
    if below.len() > 0 {
        let front = below.drop_last();
        assert forall|i: int| 0 <= i < front.len() implies ready(
            g,
            regs,
            #[trigger] front[i],
            k,
        ) by {
            assert(front[i] == below[i]);
        }
        assert forall|i: int| 0 <= i < front.len() implies nodes.contains(#[trigger] front[i]) by {
            assert(front[i] == below[i]);
        }
        lower_all_count(g, st, regs, front, depth, k, nodes);
        lower_all_grows(g, st, front, depth);
        let st1 = (lower_all(g, st, front, depth)->0).0;
        assert(ready(g, regs, below[below.len() - 1], k));
        lower_count(g, st1, regs, below.last(), depth, k, nodes);
    }
}

/// Whether `nodes` holds the operands of each signal that it holds.
pub open spec fn holds_operands(g: Graph, nodes: Set<Node>) -> bool {
    forall|n: Node, i: int|
        #![trigger nodes.contains(n), operands(g, n)->0[i]]
        nodes.contains(n) && operands(g, n) is Some && 0 <= i < operands(g, n)->0.len()
            ==> nodes.contains(operands(g, n)->0[i])
}

/// Whether the signals among `nodes` are well formed.
pub open spec fn well_formed(g: Graph, nodes: Set<Node>) -> bool {
    forall|n: Node| #[trigger] nodes.contains(n) ==> g.signal_wf(n.signal)
}

proof fn compiled_among(g: Graph, st: State, node: Node, depth: nat, nodes: Set<Node>)
    requires
        lower(g, st, node, depth) is Some,
        holds_operands(g, nodes),
        nodes.contains(node),
    ensures
        forall|n: Node|
            #![trigger (lower(g, st, node, depth)->0).0.exprs.contains_key(n)]
            (lower(g, st, node, depth)->0).0.exprs.contains_key(n) ==> st.exprs.contains_key(n)
                || nodes.contains(n),
    decreases depth, 0nat,
{
    if !st.exprs.contains_key(node) {
        let below = operands(g, node)->0;
        let less = (depth - 1) as nat;
        all_compiled_among(g, st, below, less, nodes);
        let (st1, exprs) = lower_all(g, st, below, less)->0;
        combine_extends(g, node, st1, exprs);
        let after = (lower(g, st, node, depth)->0).0;
        assert forall|n: Node|
            #![trigger after.exprs.contains_key(n)]
            after.exprs.contains_key(n) implies st.exprs.contains_key(n) || nodes.contains(n) by {
            if n != node {
                assert(st1.exprs.contains_key(n));
            }
        }
    }
}

proof fn all_compiled_among(
    g: Graph,
    st: State,
    below: Seq<Node>,
    depth: nat,
    nodes: Set<Node>,
)
    requires
        lower_all(g, st, below, depth) is Some,
        holds_operands(g, nodes),
        forall|i: int| 0 <= i < below.len() ==> nodes.contains(#[trigger] below[i]),
    ensures
        forall|n: Node|
            #![trigger (lower_all(g, st, below, depth)->0).0.exprs.contains_key(n)]
            (lower_all(g, st, below, depth)->0).0.exprs.contains_key(n) ==> st.exprs.contains_key(
                n,
            ) || nodes.contains(n),
    decreases depth, below.len() + 1,
{
    if below.len() > 0 {
        let front = below.drop_last();
        assert forall|i: int| 0 <= i < front.len() implies nodes.contains(#[trigger] front[i]) by {
            assert(front[i] == below[i]);
        }
        all_compiled_among(g, st, front, depth, nodes);
        let st1 = (lower_all(g, st, front, depth)->0).0;
        assert(nodes.contains(below[below.len() - 1]));
        compiled_among(g, st1, below.last(), depth, nodes);
    }
}

/// Compiling a signal takes at most 255 temporaries for each signal that is compiled on
/// the way, and compiles only signals that it is computed from. So the number of
/// temporaries stays within the type that counts them wherever there are few enough of
/// those signals.
pub proof fn compiling_takes_few_temporaries(
    g: Graph,
    st: State,
    node: Node,
    depth: nat,
    nodes: Set<Node>,
)
    requires
        ready(g, Set::full(), node, depth),
        lowers(g, st, node),
        st.exprs.dom().finite(),
        nodes.finite(),
        nodes.contains(node),
        holds_operands(g, nodes),
        well_formed(g, nodes),
    ensures
        ({
            let after = lowered(g, st, node).0;
            &&& after.exprs.dom().finite()
            &&& after.temps - st.temps <= 255 * (after.exprs.len() - st.exprs.len())
            &&& after.exprs.dom().subset_of(st.exprs.dom().union(nodes))
            &&& after.temps <= st.temps + 255 * nodes.len()
        }),
{
    let chosen = choose|depth: nat| (#[trigger] lower(g, st, node, depth)) is Some;
    let after = lowered(g, st, node).0;
    lower_count(g, st, Set::full(), node, chosen, depth, nodes);
    lower_grows(g, st, node, chosen);
    compiled_among(g, st, node, chosen, nodes);
    assert forall|n: Node| after.exprs.dom().contains(n) implies st.exprs.dom().union(
        nodes,
    ).contains(n) by {
        assert(after.exprs.contains_key(n));
    }
    let new = after.exprs.dom().difference(st.exprs.dom());
    assert(new.subset_of(nodes));
    vstd::set_lib::lemma_len_subset(new, nodes);
    assert(st.exprs.dom().union(new) =~= after.exprs.dom());
    vstd::set_lib::lemma_len_union(st.exprs.dom(), new);
}

} // verus!
