//! What a design computes, stated on the fields of its signals and in numbers: of the
//! signals themselves, and of the code that they are compiled to.

use crate::faithful::{
    carries, combine_runs, feeds, fresh, port_of, signal_value_fits, stands_for, Names,
};
use crate::graph::{fits, mask, BinOp, Graph, Node, SignalData, UnOp, Value};
use crate::il;
use crate::il::{ExprView, ValueType};
use crate::language::{constants_hold_low_bits, literals_are_worth_their_numbers, wrapped_sum};
use crate::laws::first_compiled_code_computes_the_design;
use crate::lowering::{lower, lower_all, lowered, lowered_within, lowers, operands, State};
use crate::name::temp_name;
use crate::semantics::{
    bin_op_value, eval, operation_value, run, signal_value, signal_values, Stimulus,
};
use crate::words::{
    above_is_sum, complement_in_numbers, copies_in_numbers, fits_below, low_bits_are_remainder,
    shift_right_divides,
};
use vstd::arithmetic::div_mod::{lemma_mod_bound, lemma_small_mod};
use vstd::arithmetic::power2::{lemma2_to64, lemma_pow2_pos, lemma_pow2_strictly_increases, pow2};
use vstd::prelude::*;

verus! {

/// A word that fits a width is what the value that stands for it is worth.
proof fn stands_in_numbers(width: u32, word: u128)
    requires
        1 <= width <= 128,
        word < pow2(width as nat),
    ensures
        stands_for(width, word).value_type() == ValueType::holding(width),
        stands_for(width, word).word() == word,
{
    let bits = ValueType::holding(width).bits();
    constants_hold_low_bits(ValueType::holding(width), word);
    if width < bits {
        lemma_pow2_strictly_increases(width as nat, bits as nat);
    }
    lemma_small_mod(word as nat, pow2(bits as nat));
}

/// Binary operations, in numbers.
proof fn binary_in_numbers(op: BinOp, x: u128, y: u128, source_width: u32, width: u32)
    requires
        1 <= source_width <= 128,
        x < pow2(source_width as nat),
        y < pow2(source_width as nat),
        width == (match op {
            BinOp::Add | BinOp::BitAnd | BinOp::BitOr | BinOp::BitXor => source_width,
            _ => 1,
        }),
    ensures
        ({
            let v = bin_op_value(op, x, y, width);
            &&& v < pow2(width as nat)
            &&& op is Add ==> v as int == (x + y) % pow2(width as nat) as int
        }),
{
    let v = bin_op_value(op, x, y, width);
    let sum = (x + y) as u128;
    low_bits_are_remainder(sum, width);
    wrapped_sum(x, y, width);
    lemma_pow2_pos(width as nat);
    lemma_mod_bound(x + y, pow2(width as nat) as int);
    fits_below(x, source_width);
    fits_below(y, source_width);
    let m = mask(source_width);
    assert(x & m == x && y & m == y ==> (x & y) & m == x & y && (x | y) & m == x | y && (x ^ y) & m
        == x ^ y) by (bit_vector);
    fits_below(v, width);
    lemma2_to64();
}

/// What was compiled before is not compiled again.
proof fn compiled_parts(g: Graph, st: State, nodes: Seq<Node>)
    requires
        forall|i: int|
            0 <= i < nodes.len() ==> g.has((#[trigger] nodes[i]).signal) && st.exprs.contains_key(
                nodes[i],
            ),
    ensures
        lower_all(g, st, nodes, 1) == Some(
            (st, Seq::new(nodes.len(), |i: int| st.exprs[nodes[i]])),
        ),
    decreases nodes.len(),
{
    if nodes.len() == 0 {
        assert(Seq::new(nodes.len(), |i: int| st.exprs[nodes[i]]) =~= seq![]);
    } else {
        let front = nodes.drop_last();
        assert forall|i: int| 0 <= i < front.len() implies g.has((#[trigger] front[i]).signal)
            && st.exprs.contains_key(front[i]) by {
            assert(front[i] == nodes[i]);
        }
        compiled_parts(g, st, front);
        assert(nodes[nodes.len() - 1] == nodes.last());
        assert(lower(g, st, nodes.last(), 1) == Some((st, st.exprs[nodes.last()])));
        assert(Seq::new(front.len(), |i: int| st.exprs[front[i]]).push(st.exprs[nodes.last()])
            =~= Seq::new(nodes.len(), |i: int| st.exprs[nodes[i]]));
    }
}

/// The values of signals, one after the other.
proof fn values_in_a_row(
    g: Graph,
    stimulus: Stimulus,
    nodes: Seq<Node>,
    depth: nat,
    values: Seq<u128>,
)
    requires
        values.len() == nodes.len(),
        forall|i: int|
            0 <= i < nodes.len() ==> signal_value(g, stimulus, #[trigger] nodes[i], depth) == Some(
                values[i],
            ),
    ensures
        signal_values(g, stimulus, nodes, depth) == Some(values),
    decreases nodes.len(),
{
    if nodes.len() == 0 {
        assert(values =~= seq![]);
    } else {
        let front = nodes.drop_last();
        assert forall|i: int| 0 <= i < front.len() implies signal_value(
            g,
            stimulus,
            #[trigger] front[i],
            depth,
        ) == Some(values.drop_last()[i]) by {
            assert(front[i] == nodes[i]);
        }
        values_in_a_row(g, stimulus, front, depth, values.drop_last());
        assert(nodes[nodes.len() - 1] == nodes.last());
        assert(values.drop_last().push(values.last()) =~= values);
    }
}

/// The code for a signal whose parts were compiled, and are worth `values`.
proof fn code_runs(
    g: Graph,
    st: State,
    members: Names,
    locals: Names,
    stimulus: Stimulus,
    node: Node,
    values: Seq<u128>,
) -> (after: Names)
    requires
        g.sized(node.signal),
        g.signal_wf(node.signal),
        operands(g, node) is Some,
        !st.exprs.contains_key(node),
        fresh(st, locals),
        feeds(g, st.regs, stimulus, members),
        g.data(node.signal) is Reg ==> st.regs.contains_key(node),
        values.len() == operands(g, node)->0.len(),
        operation_value(g, stimulus, node, values) is Some,
        operation_value(g, stimulus, node, values)->0 < pow2(g.width(node.signal) as nat),
        forall|i: int|
            #![trigger values[i]]
            0 <= i < values.len() ==> {
                let part = operands(g, node)->0[i];
                &&& g.has_width(part.signal)
                &&& st.exprs.contains_key(part)
                &&& values[i] < pow2(g.width(part.signal) as nat)
                &&& eval(members, locals, st.exprs[part]) is Some
                &&& eval(members, locals, st.exprs[part])->0.value_type() == ValueType::holding(
                    g.width(part.signal),
                )
                &&& eval(members, locals, st.exprs[part])->0.word() == values[i]
            },
    ensures
        lowers(g, st, node),
        locals.submap_of(after),
        run(
            members,
            locals,
            lowered(g, st, node).0.assignments.skip(st.assignments.len() as int),
        ) == Some(after),
        eval(members, after, lowered(g, st, node).1) is Some,
        eval(members, after, lowered(g, st, node).1)->0.value_type() == ValueType::holding(
            g.width(node.signal),
        ),
        eval(members, after, lowered(g, st, node).1)->0.word() == operation_value(
            g,
            stimulus,
            node,
            values,
        )->0,
{
    let nodes = operands(g, node)->0;
    let exprs = Seq::new(nodes.len(), |i: int| st.exprs[nodes[i]]);
    assert forall|i: int| 0 <= i < nodes.len() implies g.has((#[trigger] nodes[i]).signal)
        && st.exprs.contains_key(nodes[i]) by {
        assert(values[i] < pow2(g.width(nodes[i].signal) as nat));
    }
    compiled_parts(g, st, nodes);
    assert forall|i: int| 0 <= i < nodes.len() implies {
        &&& 1 <= g.width(nodes[i].signal) <= 128
        &&& fits(#[trigger] values[i], g.width(nodes[i].signal))
        &&& eval(members, locals, exprs[i]) == Some(
            stands_for(g.width(nodes[i].signal), values[i]),
        )
    } by {
        fits_below(values[i], g.width(nodes[i].signal));
        port_of(eval(members, locals, st.exprs[nodes[i]])->0);
    }
    assert(carries(g, members, locals, nodes, exprs, values));
    let after = combine_runs(g, stimulus, members, node, st, locals, exprs, values);
    assert(lower(g, st, node, 2) is Some);
    lowered_within(g, st, node, 2);
    stands_in_numbers(g.width(node.signal), operation_value(g, stimulus, node, values)->0);
    after
}

/// The value of a signal is less than two to the power of its width.
pub proof fn value_is_in_range(g: Graph, stimulus: Stimulus, node: Node, depth: nat)
    requires
        signal_value(g, stimulus, node, depth) is Some,
    ensures
        signal_value(g, stimulus, node, depth)->0 < pow2(
            g.signals@[node.signal as int].bit_width as nat,
        ),
{
    signal_value_fits(g, stimulus, node, depth);
    fits_below(signal_value(g, stimulus, node, depth)->0, g.width(node.signal));
}

/// A design that is fed with nothing.
spec fn nothing() -> Stimulus {
    Stimulus { ports: Map::empty(), regs: Map::empty() }
}

/// The code for a complement and that for its source, which was compiled before, make up
/// together all bits of the width.
pub proof fn code_of_complements(
    g: Graph,
    st: State,
    members: Names,
    locals: Names,
    node: Node,
    source: usize,
    x: il::Value,
)
    requires
        node.signal < g.signals@.len(),
        g.signals@[node.signal as int].data == (SignalData::UnOp { source, op: UnOp::Not }),
        source < g.signals@.len(),
        g.signals@[node.signal as int].bit_width == g.signals@[source as int].bit_width,
        1 <= g.signals@[source as int].bit_width <= 128,
        !st.exprs.contains_key(node),
        forall|i: nat| i >= st.temps ==> !locals.contains_key(#[trigger] temp_name(i)),
        st.exprs.contains_key(Node { path: node.path, signal: source }),
        eval(members, locals, st.exprs[Node { path: node.path, signal: source }]) == Some(x),
        x.value_type() == ValueType::holding(g.signals@[source as int].bit_width),
        x.word() < pow2(g.signals@[source as int].bit_width as nat),
    ensures
        lowers(g, st, node),
        exists|after: Names|
            {
                let v = eval(members, after, lowered(g, st, node).1)->0.word();
                &&& run(
                    members,
                    locals,
                    lowered(g, st, node).0.assignments.skip(st.assignments.len() as int),
                ) == Some(after)
                &&& locals.submap_of(after)
                &&& (#[trigger] eval(members, after, lowered(g, st, node).1)) is Some
                &&& eval(members, after, lowered(g, st, node).1)->0.value_type()
                    == ValueType::holding(g.signals@[node.signal as int].bit_width)
                &&& v + x.word() == pow2(g.signals@[source as int].bit_width as nat) - 1
            },
{
    let width = g.signals@[source as int].bit_width;
    complement_in_numbers(x.word(), width);
    let values = seq![x.word()];
    let nodes = operands(g, node)->0;
    assert(nodes[0] == (Node { path: node.path, signal: source }));
    let after = code_runs(g, st, members, locals, nothing(), node, values);
    assert(eval(members, after, lowered(g, st, node).1) is Some);
}

/// The value of a complement and that of its source make up together all bits of the width.
pub proof fn values_of_complements(
    g: Graph,
    stimulus: Stimulus,
    node: Node,
    depth: nat,
    source: usize,
    x: u128,
)
    requires
        node.signal < g.signals@.len(),
        g.signals@[node.signal as int].data == (SignalData::UnOp { source, op: UnOp::Not }),
        source < g.signals@.len(),
        g.signals@[node.signal as int].bit_width == g.signals@[source as int].bit_width,
        1 <= g.signals@[source as int].bit_width <= 128,
        signal_value(g, stimulus, Node { path: node.path, signal: source }, depth) == Some(x),
    ensures
        signal_value(g, stimulus, node, depth + 1) is Some,
        ({
            let v = signal_value(g, stimulus, node, depth + 1)->0;
            &&& v < pow2(g.signals@[node.signal as int].bit_width as nat)
            &&& v + x == pow2(g.signals@[source as int].bit_width as nat) - 1
        }),
{
    value_is_in_range(g, stimulus, Node { path: node.path, signal: source }, depth);
    let width = g.signals@[source as int].bit_width;
    complement_in_numbers(x, width);
    let nodes = operands(g, node)->0;
    assert(nodes[0] == (Node { path: node.path, signal: source }));
    values_in_a_row(g, stimulus, nodes, depth, seq![x]);
}

/// The code for a binary operation, whose sides were compiled before, is worth the operation
/// with the worth of `lhs` on the left and the worth of `rhs` on the right. Sums wrap around
/// at the width; a comparison is worth 1 where it holds, else 0.
pub proof fn code_of_binary_operations(
    g: Graph,
    st: State,
    members: Names,
    locals: Names,
    node: Node,
    lhs: usize,
    rhs: usize,
    op: BinOp,
    x: il::Value,
    y: il::Value,
)
    requires
        node.signal < g.signals@.len(),
        g.signals@[node.signal as int].data == (SignalData::BinOp { lhs, rhs, op }),
        lhs < g.signals@.len(),
        rhs < g.signals@.len(),
        1 <= g.signals@[lhs as int].bit_width <= 128,
        g.signals@[rhs as int].bit_width == g.signals@[lhs as int].bit_width,
        g.signals@[node.signal as int].bit_width == (match op {
            BinOp::Add | BinOp::BitAnd | BinOp::BitOr | BinOp::BitXor => g.signals@[
                lhs as int
            ].bit_width,
            _ => 1,
        }),
        !st.exprs.contains_key(node),
        forall|i: nat| i >= st.temps ==> !locals.contains_key(#[trigger] temp_name(i)),
        st.exprs.contains_key(Node { path: node.path, signal: lhs }),
        eval(members, locals, st.exprs[Node { path: node.path, signal: lhs }]) == Some(x),
        x.value_type() == ValueType::holding(g.signals@[lhs as int].bit_width),
        x.word() < pow2(g.signals@[lhs as int].bit_width as nat),
        st.exprs.contains_key(Node { path: node.path, signal: rhs }),
        eval(members, locals, st.exprs[Node { path: node.path, signal: rhs }]) == Some(y),
        y.value_type() == ValueType::holding(g.signals@[rhs as int].bit_width),
        y.word() < pow2(g.signals@[rhs as int].bit_width as nat),
    ensures
        lowers(g, st, node),
        exists|after: Names|
            {
                let v = eval(members, after, lowered(g, st, node).1)->0.word();
                &&& run(
                    members,
                    locals,
                    lowered(g, st, node).0.assignments.skip(st.assignments.len() as int),
                ) == Some(after)
                &&& locals.submap_of(after)
                &&& (#[trigger] eval(members, after, lowered(g, st, node).1)) is Some
                &&& eval(members, after, lowered(g, st, node).1)->0.value_type()
                    == ValueType::holding(g.signals@[node.signal as int].bit_width)
                &&& match op {
                    BinOp::Add => v as int == (x.word() + y.word()) % pow2(
                        g.signals@[lhs as int].bit_width as nat,
                    ) as int,
                    BinOp::BitAnd => v == x.word() & y.word(),
                    BinOp::BitOr => v == x.word() | y.word(),
                    BinOp::BitXor => v == x.word() ^ y.word(),
                    BinOp::Equal => v == (if x.word() == y.word() {
                        1int
                    } else {
                        0int
                    }),
                    BinOp::NotEqual => v == (if x.word() == y.word() {
                        0int
                    } else {
                        1int
                    }),
                    BinOp::LessThan => v == (if x.word() < y.word() {
                        1int
                    } else {
                        0int
                    }),
                    BinOp::LessThanEqual => v == (if x.word() <= y.word() {
                        1int
                    } else {
                        0int
                    }),
                    BinOp::GreaterThan => v == (if x.word() > y.word() {
                        1int
                    } else {
                        0int
                    }),
                    BinOp::GreaterThanEqual => v == (if x.word() >= y.word() {
                        1int
                    } else {
                        0int
                    }),
                }
            },
{
    let (source_width, width) = (
        g.signals@[lhs as int].bit_width,
        g.signals@[node.signal as int].bit_width,
    );
    binary_in_numbers(op, x.word(), y.word(), source_width, width);
    let values = seq![x.word(), y.word()];
    let nodes = operands(g, node)->0;
    assert(nodes[0] == (Node { path: node.path, signal: lhs }));
    assert(nodes[1] == (Node { path: node.path, signal: rhs }));
    let after = code_runs(g, st, members, locals, nothing(), node, values);
    assert(eval(members, after, lowered(g, st, node).1) is Some);
}

/// The value of a binary operation is the operation with the value of `lhs` on the left and
/// the value of `rhs` on the right. Sums wrap around at the width; a comparison is 1 where it
/// holds, else 0.
pub proof fn values_of_binary_operations(
    g: Graph,
    stimulus: Stimulus,
    node: Node,
    depth: nat,
    lhs: usize,
    rhs: usize,
    op: BinOp,
    x: u128,
    y: u128,
)
    requires
        node.signal < g.signals@.len(),
        g.signals@[node.signal as int].data == (SignalData::BinOp { lhs, rhs, op }),
        lhs < g.signals@.len(),
        rhs < g.signals@.len(),
        1 <= g.signals@[lhs as int].bit_width <= 128,
        g.signals@[rhs as int].bit_width == g.signals@[lhs as int].bit_width,
        g.signals@[node.signal as int].bit_width == (match op {
            BinOp::Add | BinOp::BitAnd | BinOp::BitOr | BinOp::BitXor => g.signals@[
                lhs as int
            ].bit_width,
            _ => 1,
        }),
        signal_value(g, stimulus, Node { path: node.path, signal: lhs }, depth) == Some(x),
        signal_value(g, stimulus, Node { path: node.path, signal: rhs }, depth) == Some(y),
    ensures
        signal_value(g, stimulus, node, depth + 1) is Some,
        ({
            let v = signal_value(g, stimulus, node, depth + 1)->0;
            &&& v < pow2(g.signals@[node.signal as int].bit_width as nat)
            &&& match op {
                BinOp::Add => v as int == (x + y) % pow2(
                    g.signals@[lhs as int].bit_width as nat,
                ) as int,
                BinOp::BitAnd => v == x & y,
                BinOp::BitOr => v == x | y,
                BinOp::BitXor => v == x ^ y,
                BinOp::Equal => v == (if x == y {
                    1int
                } else {
                    0int
                }),
                BinOp::NotEqual => v == (if x == y {
                    0int
                } else {
                    1int
                }),
                BinOp::LessThan => v == (if x < y {
                    1int
                } else {
                    0int
                }),
                BinOp::LessThanEqual => v == (if x <= y {
                    1int
                } else {
                    0int
                }),
                BinOp::GreaterThan => v == (if x > y {
                    1int
                } else {
                    0int
                }),
                BinOp::GreaterThanEqual => v == (if x >= y {
                    1int
                } else {
                    0int
                }),
            }
        }),
{
    value_is_in_range(g, stimulus, Node { path: node.path, signal: lhs }, depth);
    value_is_in_range(g, stimulus, Node { path: node.path, signal: rhs }, depth);
    let (source_width, width) = (
        g.signals@[lhs as int].bit_width,
        g.signals@[node.signal as int].bit_width,
    );
    binary_in_numbers(op, x, y, source_width, width);
    let nodes = operands(g, node)->0;
    assert(nodes[0] == (Node { path: node.path, signal: lhs }));
    assert(nodes[1] == (Node { path: node.path, signal: rhs }));
    values_in_a_row(g, stimulus, nodes, depth, seq![x, y]);
}

/// The code for a range of bits, whose source was compiled before, is worth what that is
/// worth without the bits below the range and those above it.
pub proof fn code_of_bit_ranges(
    g: Graph,
    st: State,
    members: Names,
    locals: Names,
    node: Node,
    source: usize,
    range_high: u32,
    range_low: u32,
    x: il::Value,
)
    requires
        node.signal < g.signals@.len(),
        g.signals@[node.signal as int].data == (SignalData::Bits { source, range_high, range_low }),
        source < g.signals@.len(),
        g.signals@[source as int].bit_width <= 128,
        range_low <= range_high < g.signals@[source as int].bit_width,
        g.signals@[node.signal as int].bit_width == range_high - range_low + 1,
        !st.exprs.contains_key(node),
        forall|i: nat| i >= st.temps ==> !locals.contains_key(#[trigger] temp_name(i)),
        st.exprs.contains_key(Node { path: node.path, signal: source }),
        eval(members, locals, st.exprs[Node { path: node.path, signal: source }]) == Some(x),
        x.value_type() == ValueType::holding(g.signals@[source as int].bit_width),
        x.word() < pow2(g.signals@[source as int].bit_width as nat),
    ensures
        lowers(g, st, node),
        exists|after: Names|
            {
                let v = eval(members, after, lowered(g, st, node).1)->0.word();
                &&& run(
                    members,
                    locals,
                    lowered(g, st, node).0.assignments.skip(st.assignments.len() as int),
                ) == Some(after)
                &&& locals.submap_of(after)
                &&& (#[trigger] eval(members, after, lowered(g, st, node).1)) is Some
                &&& eval(members, after, lowered(g, st, node).1)->0.value_type()
                    == ValueType::holding(g.signals@[node.signal as int].bit_width)
                &&& v as int == (x.word() as int / pow2(range_low as nat) as int) % pow2(
                    (range_high - range_low + 1) as nat,
                ) as int
            },
{
    let width = g.signals@[node.signal as int].bit_width;
    let moved = x.word() >> range_low;
    shift_right_divides(x.word(), range_low);
    low_bits_are_remainder(moved, width);
    lemma_pow2_pos(width as nat);
    lemma_mod_bound(moved as int, pow2(width as nat) as int);
    let values = seq![x.word()];
    let nodes = operands(g, node)->0;
    assert(nodes[0] == (Node { path: node.path, signal: source }));
    let after = code_runs(g, st, members, locals, nothing(), node, values);
    assert(eval(members, after, lowered(g, st, node).1) is Some);
}

/// The value of a range of bits is that of its source without the bits below the range and
/// those above it.
pub proof fn values_of_bit_ranges(
    g: Graph,
    stimulus: Stimulus,
    node: Node,
    depth: nat,
    source: usize,
    range_high: u32,
    range_low: u32,
    x: u128,
)
    requires
        node.signal < g.signals@.len(),
        g.signals@[node.signal as int].data == (SignalData::Bits { source, range_high, range_low }),
        source < g.signals@.len(),
        g.signals@[source as int].bit_width <= 128,
        range_low <= range_high < g.signals@[source as int].bit_width,
        g.signals@[node.signal as int].bit_width == range_high - range_low + 1,
        signal_value(g, stimulus, Node { path: node.path, signal: source }, depth) == Some(x),
    ensures
        signal_value(g, stimulus, node, depth + 1) is Some,
        ({
            let v = signal_value(g, stimulus, node, depth + 1)->0;
            &&& v < pow2(g.signals@[node.signal as int].bit_width as nat)
            &&& v as int == (x as int / pow2(range_low as nat) as int) % pow2(
                (range_high - range_low + 1) as nat,
            ) as int
        }),
{
    value_is_in_range(g, stimulus, Node { path: node.path, signal: source }, depth);
    let width = g.signals@[node.signal as int].bit_width;
    let moved = x >> range_low;
    shift_right_divides(x, range_low);
    low_bits_are_remainder(moved, width);
    lemma_pow2_pos(width as nat);
    lemma_mod_bound(moved as int, pow2(width as nat) as int);
    let nodes = operands(g, node)->0;
    assert(nodes[0] == (Node { path: node.path, signal: source }));
    values_in_a_row(g, stimulus, nodes, depth, seq![x]);
}

/// The code for a repetition, whose source was compiled before, is worth the geometric sum of
/// what that is worth, in powers of two to its width.
pub proof fn code_of_repetitions(
    g: Graph,
    st: State,
    members: Names,
    locals: Names,
    node: Node,
    source: usize,
    count: u32,
    x: il::Value,
)
    requires
        node.signal < g.signals@.len(),
        g.signals@[node.signal as int].data == (SignalData::Repeat { source, count }),
        source < g.signals@.len(),
        1 <= g.signals@[source as int].bit_width,
        1 <= count,
        g.signals@[node.signal as int].bit_width == g.signals@[source as int].bit_width * count,
        g.signals@[node.signal as int].bit_width <= 128,
        !st.exprs.contains_key(node),
        forall|i: nat| i >= st.temps ==> !locals.contains_key(#[trigger] temp_name(i)),
        st.exprs.contains_key(Node { path: node.path, signal: source }),
        eval(members, locals, st.exprs[Node { path: node.path, signal: source }]) == Some(x),
        x.value_type() == ValueType::holding(g.signals@[source as int].bit_width),
        x.word() < pow2(g.signals@[source as int].bit_width as nat),
    ensures
        lowers(g, st, node),
        exists|after: Names|
            {
                let v = eval(members, after, lowered(g, st, node).1)->0.word();
                &&& run(
                    members,
                    locals,
                    lowered(g, st, node).0.assignments.skip(st.assignments.len() as int),
                ) == Some(after)
                &&& locals.submap_of(after)
                &&& (#[trigger] eval(members, after, lowered(g, st, node).1)) is Some
                &&& eval(members, after, lowered(g, st, node).1)->0.value_type()
                    == ValueType::holding(g.signals@[node.signal as int].bit_width)
                &&& v as int * (pow2(g.signals@[source as int].bit_width as nat) - 1)
                    == x.word() as int * (pow2(
                    (g.signals@[source as int].bit_width * count) as nat,
                ) - 1)
            },
{
    let source_width = g.signals@[source as int].bit_width;
    assert(source_width <= source_width * count && (count - 1) * source_width <= source_width
        * count) by (nonlinear_arith)
        requires
            count >= 1,
            source_width >= 0,
    ;
    copies_in_numbers(x.word(), source_width, count as nat);
    let values = seq![x.word()];
    let nodes = operands(g, node)->0;
    assert(nodes[0] == (Node { path: node.path, signal: source }));
    let after = code_runs(g, st, members, locals, nothing(), node, values);
    assert(eval(members, after, lowered(g, st, node).1) is Some);
}

/// The value of a repetition is the geometric sum of that of its source, in powers of two to
/// the width of that.
pub proof fn values_of_repetitions(
    g: Graph,
    stimulus: Stimulus,
    node: Node,
    depth: nat,
    source: usize,
    count: u32,
    x: u128,
)
    requires
        node.signal < g.signals@.len(),
        g.signals@[node.signal as int].data == (SignalData::Repeat { source, count }),
        source < g.signals@.len(),
        1 <= g.signals@[source as int].bit_width,
        1 <= count,
        g.signals@[node.signal as int].bit_width == g.signals@[source as int].bit_width * count,
        g.signals@[node.signal as int].bit_width <= 128,
        signal_value(g, stimulus, Node { path: node.path, signal: source }, depth) == Some(x),
    ensures
        signal_value(g, stimulus, node, depth + 1) is Some,
        ({
            let v = signal_value(g, stimulus, node, depth + 1)->0;
            &&& v < pow2(g.signals@[node.signal as int].bit_width as nat)
            &&& v as int * (pow2(g.signals@[source as int].bit_width as nat) - 1) == x as int * (
            pow2((g.signals@[source as int].bit_width * count) as nat) - 1)
        }),
{
    value_is_in_range(g, stimulus, Node { path: node.path, signal: source }, depth);
    let source_width = g.signals@[source as int].bit_width;
    assert(source_width <= source_width * count && (count - 1) * source_width <= source_width
        * count) by (nonlinear_arith)
        requires
            count >= 1,
            source_width >= 0,
    ;
    copies_in_numbers(x, source_width, count as nat);
    let nodes = operands(g, node)->0;
    assert(nodes[0] == (Node { path: node.path, signal: source }));
    values_in_a_row(g, stimulus, nodes, depth, seq![x]);
}

/// The code for a concatenation, whose halves were compiled before, is worth what `lhs` is,
/// moved up by the width of `rhs`, and what `rhs` is, together.
pub proof fn code_of_concatenations(
    g: Graph,
    st: State,
    members: Names,
    locals: Names,
    node: Node,
    lhs: usize,
    rhs: usize,
    x: il::Value,
    y: il::Value,
)
    requires
        node.signal < g.signals@.len(),
        g.signals@[node.signal as int].data == (SignalData::Concat { lhs, rhs }),
        lhs < g.signals@.len(),
        rhs < g.signals@.len(),
        1 <= g.signals@[lhs as int].bit_width,
        1 <= g.signals@[rhs as int].bit_width,
        g.signals@[node.signal as int].bit_width == g.signals@[lhs as int].bit_width + g.signals@[
            rhs as int
        ].bit_width,
        g.signals@[node.signal as int].bit_width <= 128,
        !st.exprs.contains_key(node),
        forall|i: nat| i >= st.temps ==> !locals.contains_key(#[trigger] temp_name(i)),
        st.exprs.contains_key(Node { path: node.path, signal: lhs }),
        eval(members, locals, st.exprs[Node { path: node.path, signal: lhs }]) == Some(x),
        x.value_type() == ValueType::holding(g.signals@[lhs as int].bit_width),
        x.word() < pow2(g.signals@[lhs as int].bit_width as nat),
        st.exprs.contains_key(Node { path: node.path, signal: rhs }),
        eval(members, locals, st.exprs[Node { path: node.path, signal: rhs }]) == Some(y),
        y.value_type() == ValueType::holding(g.signals@[rhs as int].bit_width),
        y.word() < pow2(g.signals@[rhs as int].bit_width as nat),
    ensures
        lowers(g, st, node),
        exists|after: Names|
            {
                let v = eval(members, after, lowered(g, st, node).1)->0.word();
                &&& run(
                    members,
                    locals,
                    lowered(g, st, node).0.assignments.skip(st.assignments.len() as int),
                ) == Some(after)
                &&& locals.submap_of(after)
                &&& (#[trigger] eval(members, after, lowered(g, st, node).1)) is Some
                &&& eval(members, after, lowered(g, st, node).1)->0.value_type()
                    == ValueType::holding(g.signals@[node.signal as int].bit_width)
                &&& v as int == x.word() as int * pow2(
                    g.signals@[rhs as int].bit_width as nat,
                ) as int + y.word()
            },
{
    above_is_sum(
        x.word(),
        y.word(),
        g.signals@[lhs as int].bit_width,
        g.signals@[rhs as int].bit_width,
    );
    let values = seq![x.word(), y.word()];
    let nodes = operands(g, node)->0;
    assert(nodes[0] == (Node { path: node.path, signal: lhs }));
    assert(nodes[1] == (Node { path: node.path, signal: rhs }));
    let after = code_runs(g, st, members, locals, nothing(), node, values);
    assert(eval(members, after, lowered(g, st, node).1) is Some);
}

/// The value of a concatenation is that of `lhs`, moved up by the width of `rhs`, and that of
/// `rhs` together.
pub proof fn values_of_concatenations(
    g: Graph,
    stimulus: Stimulus,
    node: Node,
    depth: nat,
    lhs: usize,
    rhs: usize,
    x: u128,
    y: u128,
)
    requires
        node.signal < g.signals@.len(),
        g.signals@[node.signal as int].data == (SignalData::Concat { lhs, rhs }),
        lhs < g.signals@.len(),
        rhs < g.signals@.len(),
        1 <= g.signals@[lhs as int].bit_width,
        1 <= g.signals@[rhs as int].bit_width,
        g.signals@[node.signal as int].bit_width == g.signals@[lhs as int].bit_width + g.signals@[
            rhs as int
        ].bit_width,
        g.signals@[node.signal as int].bit_width <= 128,
        signal_value(g, stimulus, Node { path: node.path, signal: lhs }, depth) == Some(x),
        signal_value(g, stimulus, Node { path: node.path, signal: rhs }, depth) == Some(y),
    ensures
        signal_value(g, stimulus, node, depth + 1) is Some,
        ({
            let v = signal_value(g, stimulus, node, depth + 1)->0;
            &&& v < pow2(g.signals@[node.signal as int].bit_width as nat)
            &&& v as int == x as int * pow2(
                g.signals@[rhs as int].bit_width as nat,
            ) as int + y
        }),
{
    value_is_in_range(g, stimulus, Node { path: node.path, signal: lhs }, depth);
    value_is_in_range(g, stimulus, Node { path: node.path, signal: rhs }, depth);
    above_is_sum(
        x,
        y,
        g.signals@[lhs as int].bit_width,
        g.signals@[rhs as int].bit_width,
    );
    let nodes = operands(g, node)->0;
    assert(nodes[0] == (Node { path: node.path, signal: lhs }));
    assert(nodes[1] == (Node { path: node.path, signal: rhs }));
    values_in_a_row(g, stimulus, nodes, depth, seq![x, y]);
}

/// The code for a multiplexer, whose parts were compiled before, is worth what `b` is where
/// `sel` is worth 1, and what `a` is where `sel` is worth 0.
pub proof fn code_of_multiplexers(
    g: Graph,
    st: State,
    members: Names,
    locals: Names,
    node: Node,
    a: usize,
    b: usize,
    sel: usize,
    x: il::Value,
    y: il::Value,
    s: il::Value,
)
    requires
        node.signal < g.signals@.len(),
        g.signals@[node.signal as int].data == (SignalData::Mux { a, b, sel }),
        a < g.signals@.len(),
        b < g.signals@.len(),
        sel < g.signals@.len(),
        1 <= g.signals@[node.signal as int].bit_width <= 128,
        g.signals@[a as int].bit_width == g.signals@[node.signal as int].bit_width,
        g.signals@[b as int].bit_width == g.signals@[node.signal as int].bit_width,
        g.signals@[sel as int].bit_width == 1,
        !st.exprs.contains_key(node),
        forall|i: nat| i >= st.temps ==> !locals.contains_key(#[trigger] temp_name(i)),
        st.exprs.contains_key(Node { path: node.path, signal: a }),
        eval(members, locals, st.exprs[Node { path: node.path, signal: a }]) == Some(x),
        x.value_type() == ValueType::holding(g.signals@[a as int].bit_width),
        x.word() < pow2(g.signals@[a as int].bit_width as nat),
        st.exprs.contains_key(Node { path: node.path, signal: b }),
        eval(members, locals, st.exprs[Node { path: node.path, signal: b }]) == Some(y),
        y.value_type() == ValueType::holding(g.signals@[b as int].bit_width),
        y.word() < pow2(g.signals@[b as int].bit_width as nat),
        st.exprs.contains_key(Node { path: node.path, signal: sel }),
        eval(members, locals, st.exprs[Node { path: node.path, signal: sel }]) == Some(s),
        s.value_type() == ValueType::holding(1u32),
        s.word() < pow2(1u32 as nat),
    ensures
        lowers(g, st, node),
        exists|after: Names|
            {
                let v = eval(members, after, lowered(g, st, node).1)->0.word();
                &&& run(
                    members,
                    locals,
                    lowered(g, st, node).0.assignments.skip(st.assignments.len() as int),
                ) == Some(after)
                &&& locals.submap_of(after)
                &&& (#[trigger] eval(members, after, lowered(g, st, node).1)) is Some
                &&& eval(members, after, lowered(g, st, node).1)->0.value_type()
                    == ValueType::holding(g.signals@[node.signal as int].bit_width)
                &&& v == (if s.word() == 1 {
                    y.word()
                } else {
                    x.word()
                })
            },
{
    lemma2_to64();
    let values = seq![y.word(), x.word(), s.word()];
    let nodes = operands(g, node)->0;
    assert(nodes[0] == (Node { path: node.path, signal: b }));
    assert(nodes[1] == (Node { path: node.path, signal: a }));
    assert(nodes[2] == (Node { path: node.path, signal: sel }));
    let after = code_runs(g, st, members, locals, nothing(), node, values);
    assert(eval(members, after, lowered(g, st, node).1) is Some);
}

/// The value of a multiplexer is that of `b` where `sel` is 1, and that of `a` where `sel` is
/// 0.
pub proof fn values_of_multiplexers(
    g: Graph,
    stimulus: Stimulus,
    node: Node,
    depth: nat,
    a: usize,
    b: usize,
    sel: usize,
    x: u128,
    y: u128,
    s: u128,
)
    requires
        node.signal < g.signals@.len(),
        g.signals@[node.signal as int].data == (SignalData::Mux { a, b, sel }),
        a < g.signals@.len(),
        b < g.signals@.len(),
        sel < g.signals@.len(),
        1 <= g.signals@[node.signal as int].bit_width <= 128,
        g.signals@[a as int].bit_width == g.signals@[node.signal as int].bit_width,
        g.signals@[b as int].bit_width == g.signals@[node.signal as int].bit_width,
        g.signals@[sel as int].bit_width == 1,
        signal_value(g, stimulus, Node { path: node.path, signal: a }, depth) == Some(x),
        signal_value(g, stimulus, Node { path: node.path, signal: b }, depth) == Some(y),
        signal_value(g, stimulus, Node { path: node.path, signal: sel }, depth) == Some(s),
    ensures
        signal_value(g, stimulus, node, depth + 1) is Some,
        ({
            let v = signal_value(g, stimulus, node, depth + 1)->0;
            &&& v < pow2(g.signals@[node.signal as int].bit_width as nat)
            &&& v == (if s == 1 {
                y
            } else {
                x
            })
        }),
{
    value_is_in_range(g, stimulus, Node { path: node.path, signal: a }, depth);
    value_is_in_range(g, stimulus, Node { path: node.path, signal: b }, depth);
    value_is_in_range(g, stimulus, Node { path: node.path, signal: sel }, depth);
    lemma2_to64();
    let nodes = operands(g, node)->0;
    assert(nodes[0] == (Node { path: node.path, signal: b }));
    assert(nodes[1] == (Node { path: node.path, signal: a }));
    assert(nodes[2] == (Node { path: node.path, signal: sel }));
    values_in_a_row(g, stimulus, nodes, depth, seq![y, x, s]);
}

/// The code for an input at the top is worth the low bits, as many as it is wide, of the
/// member of its name.
pub proof fn code_of_inputs_at_the_top(
    g: Graph,
    st: State,
    members: Names,
    locals: Names,
    node: Node,
    name: String,
)
    requires
        node.signal < g.signals@.len(),
        g.signals@[node.signal as int].data == (SignalData::Input { name }),
        1 <= g.signals@[node.signal as int].bit_width <= 128,
        node.path.len() == 0,
        !st.exprs.contains_key(node),
        forall|i: nat| i >= st.temps ==> !locals.contains_key(#[trigger] temp_name(i)),
        members.contains_key(name@),
        members[name@].value_type() == ValueType::holding(
            g.signals@[node.signal as int].bit_width,
        ),
    ensures
        lowers(g, st, node),
        exists|after: Names|
            {
                &&& run(
                    members,
                    locals,
                    lowered(g, st, node).0.assignments.skip(st.assignments.len() as int),
                ) == Some(after)
                &&& locals.submap_of(after)
                &&& (#[trigger] eval(members, after, lowered(g, st, node).1)) is Some
                &&& eval(members, after, lowered(g, st, node).1)->0.value_type()
                    == ValueType::holding(g.signals@[node.signal as int].bit_width)
                &&& eval(members, after, lowered(g, st, node).1)->0.word() as int
                    == members[name@].word() as int % pow2(
                    g.signals@[node.signal as int].bit_width as nat,
                ) as int
            },
{
    let width = g.signals@[node.signal as int].bit_width;
    let word = members[name@].word();
    low_bits_are_remainder(word, width);
    lemma_pow2_pos(width as nat);
    lemma_mod_bound(word as int, pow2(width as nat) as int);
    let stimulus = Stimulus { ports: members, regs: Map::empty() };
    let after = code_runs(g, st, members, locals, stimulus, node, seq![]);
    assert(eval(members, after, lowered(g, st, node).1) is Some);
}

/// The value of a literal that fits its signal's width is what it was built with.
pub proof fn values_of_literals(
    g: Graph,
    stimulus: Stimulus,
    node: Node,
    depth: nat,
    value: Value,
    number: nat,
)
    requires
        node.signal < g.signals@.len(),
        g.signals@[node.signal as int].data == (SignalData::Lit { value }),
        1 <= g.signals@[node.signal as int].bit_width <= 128,
        number == (match value {
            Value::Bool(truth) => if truth {
                1
            } else {
                0
            },
            Value::U32(x) => x as nat,
            Value::U64(x) => x as nat,
            Value::U128(x) => x as nat,
        }),
        number < pow2(g.signals@[node.signal as int].bit_width as nat),
    ensures
        signal_value(g, stimulus, node, depth + 1) is Some,
        signal_value(g, stimulus, node, depth + 1)->0 as int == number,
{
    match value {
        Value::Bool(x) => literals_are_worth_their_numbers(x, 0, 0, 0),
        Value::U32(x) => literals_are_worth_their_numbers(true, x, 0, 0),
        Value::U64(x) => literals_are_worth_their_numbers(true, 0, x, 0),
        Value::U128(x) => literals_are_worth_their_numbers(true, 0, 0, x),
    }
    fits_below(value.number(), g.signals@[node.signal as int].bit_width);
    values_in_a_row(g, stimulus, seq![], depth, seq![]);
}

/// The value of an input at the top is the low bits, as many as it is wide, of what is fed
/// to the port of its name.
pub proof fn values_of_inputs_at_the_top(
    g: Graph,
    stimulus: Stimulus,
    node: Node,
    depth: nat,
    name: String,
)
    requires
        node.signal < g.signals@.len(),
        g.signals@[node.signal as int].data == (SignalData::Input { name }),
        1 <= g.signals@[node.signal as int].bit_width <= 128,
        node.path.len() == 0,
        stimulus.ports.contains_key(name@),
        stimulus.ports[name@].value_type() == ValueType::holding(
            g.signals@[node.signal as int].bit_width,
        ),
    ensures
        signal_value(g, stimulus, node, depth + 1) is Some,
        signal_value(g, stimulus, node, depth + 1)->0 as int == stimulus.ports[name@].word() as int
            % pow2(g.signals@[node.signal as int].bit_width as nat) as int,
{
    low_bits_are_remainder(
        stimulus.ports[name@].word(),
        g.signals@[node.signal as int].bit_width,
    );
    values_in_a_row(g, stimulus, seq![], depth, seq![]);
}

/// The value of an input inside an instance is that of the signal that drives the input of
/// its name at the innermost instance, seen from outside that.
pub proof fn values_of_inputs_inside(
    g: Graph,
    stimulus: Stimulus,
    node: Node,
    depth: nat,
    name: String,
    driver: usize,
    x: u128,
)
    requires
        node.signal < g.signals@.len(),
        g.signals@[node.signal as int].data == (SignalData::Input { name }),
        1 <= g.signals@[node.signal as int].bit_width <= 128,
        node.path.len() > 0,
        node.path.last() < g.instances@.len(),
        g.instances@[node.path.last() as int].driven_inputs@.contains_pair(name@, driver),
        driver < g.signals@.len(),
        g.signals@[driver as int].bit_width == g.signals@[node.signal as int].bit_width,
        signal_value(
            g,
            stimulus,
            Node { path: node.path.drop_last(), signal: driver },
            depth,
        ) == Some(x),
    ensures
        signal_value(g, stimulus, node, depth + 1) == Some(x),
{
    let nodes = operands(g, node)->0;
    assert(nodes[0] == (Node { path: node.path.drop_last(), signal: driver }));
    values_in_a_row(g, stimulus, nodes, depth, seq![x]);
}

/// The value of an output of an instance is that of the signal that the outputs of the
/// module, of which this is an instance, bind its name to, seen from inside the instance.
pub proof fn values_of_instance_outputs(
    g: Graph,
    stimulus: Stimulus,
    node: Node,
    depth: nat,
    instance: usize,
    name: String,
    module: usize,
    output: usize,
    x: u128,
)
    requires
        node.signal < g.signals@.len(),
        g.signals@[node.signal as int].data == (SignalData::InstanceOutput { instance, name }),
        1 <= g.signals@[node.signal as int].bit_width <= 128,
        instance < g.instances@.len(),
        g.instances@[instance as int].instantiated_module == module,
        module < g.modules@.len(),
        g.modules@[module as int].outputs@.contains_pair(name@, output),
        output < g.signals@.len(),
        g.signals@[output as int].bit_width == g.signals@[node.signal as int].bit_width,
        signal_value(
            g,
            stimulus,
            Node { path: node.path.push(instance), signal: output },
            depth,
        ) == Some(x),
    ensures
        signal_value(g, stimulus, node, depth + 1) == Some(x),
{
    let nodes = operands(g, node)->0;
    assert(nodes[0] == (Node { path: node.path.push(instance), signal: output }));
    values_in_a_row(g, stimulus, nodes, depth, seq![x]);
}

/// The value of a register is what it holds.
pub proof fn values_of_registers(
    g: Graph,
    stimulus: Stimulus,
    node: Node,
    depth: nat,
    next: Option<usize>,
)
    requires
        node.signal < g.signals@.len(),
        g.signals@[node.signal as int].data == (SignalData::Reg { next }),
        1 <= g.signals@[node.signal as int].bit_width <= 128,
        next is Some ==> next->0 < g.signals@.len() && g.signals@[next->0 as int].bit_width
            == g.signals@[node.signal as int].bit_width,
        stimulus.regs.contains_key(node),
        stimulus.regs[node] < pow2(g.signals@[node.signal as int].bit_width as nat),
    ensures
        signal_value(g, stimulus, node, depth + 1) == Some(stimulus.regs[node]),
{
    fits_below(stimulus.regs[node], g.signals@[node.signal as int].bit_width);
    values_in_a_row(g, stimulus, seq![], depth, seq![]);
}

/// Compiled code computes the design. Let a signal be compiled before any other, and let the
/// members hold what the design is fed with: the ports under their names, and the registers
/// that have names under those, in the types of their widths. Then the assignments can be
/// carried out from the start, and leave the expression worth the value of the signal, in the
/// type of its width.
pub proof fn compiled_code_is_worth_the_signal(
    g: Graph,
    stimulus: Stimulus,
    members: Names,
    st: State,
    node: Node,
    depth: nat,
)
    requires
        st.exprs == Map::<Node, ExprView>::empty(),
        st.assignments.len() == 0,
        st.temps == 0,
        lowers(g, st, node),
        forall|name: Seq<char>| #[trigger]
            stimulus.ports.contains_key(name) ==> members.contains_key(name) && members[name]
                == stimulus.ports[name],
        forall|n: Node| #[trigger]
            st.regs.contains_key(n) && stimulus.regs.contains_key(n) ==> {
                &&& members.contains_key(st.regs[n].value_name)
                &&& members[st.regs[n].value_name].value_type() == ValueType::holding(
                    g.signals@[n.signal as int].bit_width,
                )
                &&& members[st.regs[n].value_name].word() == stimulus.regs[n]
            },
        signal_value(g, stimulus, node, depth) is Some,
    ensures
        exists|locals: Names|
            {
                &&& run(
                    members,
                    Map::empty(),
                    lowered(g, st, node).0.assignments,
                ) == Some(locals)
                &&& (#[trigger] eval(members, locals, lowered(g, st, node).1)) is Some
                &&& eval(members, locals, lowered(g, st, node).1)->0.value_type()
                    == ValueType::holding(g.signals@[node.signal as int].bit_width)
                &&& eval(members, locals, lowered(g, st, node).1)->0.word() == signal_value(
                    g,
                    stimulus,
                    node,
                    depth,
                )->0
            },
{
    assert(st.assignments =~= State::empty().assignments);
    assert(stimulus.ports.submap_of(members));
    assert forall|n: Node|
        #![trigger st.regs.contains_key(n)]
        #![trigger stimulus.regs.contains_key(n)]
        st.regs.contains_key(n) && stimulus.regs.contains_key(n) implies members.contains_pair(
        st.regs[n].value_name,
        stands_for(g.width(n.signal), stimulus.regs[n]),
    ) by {
        port_of(members[st.regs[n].value_name]);
    }
    first_compiled_code_computes_the_design(g, stimulus, members, st, node, depth);
    let width = g.width(node.signal);
    let word = signal_value(g, stimulus, node, depth)->0;
    let locals = choose|locals: Names|
        {
            &&& run(
                members,
                Map::empty(),
                lowered(g, st, node).0.assignments,
            ) == Some(locals)
            &&& (#[trigger] eval(members, locals, lowered(g, st, node).1)) == Some(
                stands_for(width, word),
            )
        };
    signal_value_fits(g, stimulus, node, depth);
    fits_below(word, width);
    stands_in_numbers(width, word);
    assert(eval(members, locals, lowered(g, st, node).1) is Some);
}

} // verus!
