//! Compiled code computes the design: the expression for a signal is worth what the
//! signal is.

use crate::graph::{fits, mask, BinOp, Graph, Node, SignalData};
use crate::growth::{combine_extends, lower_all_grows, temp_extends};
use crate::il;
use crate::il::{AssignmentView, ExprView, RefScope, TargetScope, UnOp, ValueType};
use crate::lowering::{
    bin_op, binary, combine, converted, joined_copies, lower, lower_all, lower_bin_op, lower_bits,
    lower_concat, lower_repeat, lower_un_op, lowered, lowers, masked, op_input_type, operands,
    shifted, temp, RegNamesView, State,
};
use crate::name::{temp_name, temp_names_differ};
use crate::semantics::{
    bin_op_value, binary_value, copies, eval, operation_value, run, signal_value, signal_values,
    Stimulus,
};
use crate::words::{
    copies_fit, fits_above, fits_more, mask_again, mask_is_remainder, mask_values, mask_within,
    of_same, of_word, same_word,
};
use vstd::arithmetic::power2::pow2;
use vstd::prelude::*;

verus! {

/// The values of names.
pub type Names = Map<Seq<char>, il::Value>;

/// Whether no temporary that is still to come has a value.
pub open spec fn fresh(st: State, locals: Names) -> bool {
    forall|i: nat| i >= st.temps ==> !locals.contains_key(#[trigger] temp_name(i))
}

/// Whether the assignments that `b` has over `a` lead from `before` to `after`, and
/// change no value on the way.
pub open spec fn runs_to(members: Names, a: State, before: Names, b: State, after: Names) -> bool {
    &&& a.assignments.is_prefix_of(b.assignments)
    &&& run(members, before, b.assignments.skip(a.assignments.len() as int)) == Some(after)
    &&& before.submap_of(after)
    &&& fresh(b, after)
}

/// The value that stands for the word `word` of a signal `width` bits wide.
pub open spec fn stands_for(width: u32, word: u128) -> il::Value {
    il::Value::of(ValueType::holding(width), word)
}

/// An expression keeps its value when more locals get one.
pub proof fn eval_more(members: Names, before: Names, after: Names, expr: ExprView)
    requires
        before.submap_of(after),
        eval(members, before, expr) is Some,
    ensures
        eval(members, after, expr) == eval(members, before, expr),
    decreases expr,
{
    match expr {
        ExprView::Value { .. } => {},
        ExprView::Ref { name, .. } => {
            assert(before.dom().contains(name) ==> after.dom().contains(name));
        },
        ExprView::UnOp { source, .. } => {
            eval_more(members, before, after, *source);
        },
        ExprView::BinOp { lhs, rhs, .. } => {
            eval_more(members, before, after, *lhs);
            eval_more(members, before, after, *rhs);
        },
        ExprView::Ternary { lhs, rhs, cond } => {
            eval_more(members, before, after, *cond);
            if eval(members, before, *cond) == Some(il::Value::Bool(true)) {
                eval_more(members, before, after, *lhs);
            } else {
                eval_more(members, before, after, *rhs);
            }
        },
        ExprView::Cast { source, .. } => {
            eval_more(members, before, after, *source);
        },
    }
}

/// Running one sequence of assignments after another.
pub proof fn run_concat(
    members: Names,
    locals: Names,
    first: Seq<AssignmentView>,
    second: Seq<AssignmentView>,
)
    ensures
        run(members, locals, first + second) == (match run(members, locals, first) {
            Some(locals) => run(members, locals, second),
            None => None,
        }),
    decreases second.len(),
{
    if second.len() == 0 {
        assert(first + second =~= first);
    } else {
        run_concat(members, locals, first, second.drop_last());
        assert((first + second).drop_last() =~= first + second.drop_last());
        assert((first + second).last() == second.last());
    }
}

/// Where nothing is added, nothing is carried out.
pub proof fn runs_to_self(members: Names, st: State, locals: Names)
    requires
        fresh(st, locals),
    ensures
        runs_to(members, st, locals, st, locals),
{
    assert(st.assignments =~= st.assignments.subrange(0, st.assignments.len() as int));
    assert(st.assignments.skip(st.assignments.len() as int) =~= seq![]);
}

/// What is added in two steps can be carried out in two.
pub proof fn runs_to_trans(
    members: Names,
    a: State,
    la: Names,
    b: State,
    lb: Names,
    c: State,
    lc: Names,
)
    requires
        runs_to(members, a, la, b, lb),
        runs_to(members, b, lb, c, lc),
    ensures
        runs_to(members, a, la, c, lc),
{
    let (n, m) = (a.assignments.len() as int, b.assignments.len() as int);
    assert forall|i: int| 0 <= i < n implies a.assignments[i] == c.assignments[i] by {
        assert(a.assignments[i] == b.assignments[i]);
    }
    assert(a.assignments =~= c.assignments.subrange(0, n));
    assert(c.assignments.skip(n) =~= b.assignments.skip(n) + c.assignments.skip(m)) by {
        assert forall|i: int| n <= i < m implies b.assignments[i] == c.assignments[i] by {}
    }
    run_concat(members, la, b.assignments.skip(n), c.assignments.skip(m));
    vstd::map_lib::lemma_submap_of_trans(la, lb, lc);
}

/// A new temporary holds the value of the expression that it is assigned.
proof fn temp_runs(members: Names, st: State, locals: Names, expr: ExprView) -> (after: Names)
    requires
        fresh(st, locals),
        eval(members, locals, expr) is Some,
    ensures
        runs_to(members, st, locals, temp(st, expr).0, after),
        eval(members, after, temp(st, expr).1) == eval(members, locals, expr),
{
    let value = eval(members, locals, expr)->0;
    let name = temp_name(st.temps);
    let after = locals.insert(name, value);
    let (st1, reference) = temp(st, expr);
    temp_extends(st, expr);
    let new = st1.assignments.skip(st.assignments.len() as int);
    assert(new =~= seq![
        AssignmentView { target_scope: TargetScope::Local, target_name: name, expr },
    ]);
    assert(new.drop_last() =~= seq![]);
    reveal_with_fuel(run, 2);
    assert forall|i: nat| i >= st1.temps implies !after.contains_key(#[trigger] temp_name(i)) by {
        temp_names_differ(i, st.temps);
    }
    assert(locals.submap_of(after));
    after
}

/// A masked expression holds the low bits.
proof fn masked_runs(
    members: Names,
    st: State,
    locals: Names,
    expr: ExprView,
    width: u32,
    value_type: ValueType,
    word: u128,
) -> (after: Names)
    requires
        fresh(st, locals),
        eval(members, locals, expr) == Some(il::Value::of(value_type, word)),
    ensures
        runs_to(members, st, locals, masked(st, expr, width, value_type).0, after),
        eval(members, after, masked(st, expr, width, value_type).1) == Some(
            il::Value::of(value_type, word & mask(width)),
        ),
{
    let (m, t) = (mask(width), mask(value_type.bits()));
    of_word(value_type, word);
    of_word(value_type, m);
    if width == value_type.bits() {
        mask_again(word, t);
        of_same(value_type, word & m, word);
        runs_to_self(members, st, locals);
        locals
    } else {
        let value = ExprView::Value { value: il::Value::of(value_type, m) };
        let test = binary(expr, value, il::BinOp::BitAnd);
        assert(((word & t) & (m & t)) & t == (word & m) & t) by (bit_vector);
        of_same(value_type, (word & t) & (m & t), word & m);
        assert(eval(members, locals, value) == Some(il::Value::of(value_type, m)));
        temp_runs(members, st, locals, test)
    }
}

/// An expression shifted to the left.
proof fn shifted_left_runs(
    members: Names,
    st: State,
    locals: Names,
    expr: ExprView,
    shift: u32,
    value_type: ValueType,
    word: u128,
) -> (after: Names)
    requires
        fresh(st, locals),
        shift < value_type.bits(),
        eval(members, locals, expr) == Some(il::Value::of(value_type, word)),
    ensures
        runs_to(members, st, locals, shifted(st, expr, shift, il::BinOp::Shl).0, after),
        eval(members, after, shifted(st, expr, shift, il::BinOp::Shl).1) == Some(
            il::Value::of(value_type, word << shift),
        ),
{
    let t = mask(value_type.bits());
    of_word(value_type, word);
    if shift == 0 {
        assert(word << 0u32 == word) by (bit_vector);
        runs_to_self(members, st, locals);
        locals
    } else {
        let value = ExprView::Value { value: il::Value::U32(shift) };
        mask_values();
        assert(shift < 32 ==> ((word & 0xffff_ffff) << shift) & 0xffff_ffff == (word << shift)
            & 0xffff_ffff) by (bit_vector);
        assert(shift < 64 ==> ((word & 0xffff_ffff_ffff_ffff) << shift) & 0xffff_ffff_ffff_ffff
            == (word << shift) & 0xffff_ffff_ffff_ffff) by (bit_vector);
        assert(word & 0xffff_ffff_ffff_ffff_ffff_ffff_ffff_ffff == word) by (bit_vector);
        of_same(value_type, (word & t) << shift, word << shift);
        assert(eval(members, locals, value) == Some(il::Value::U32(shift)));
        temp_runs(members, st, locals, binary(expr, value, il::BinOp::Shl))
    }
}

/// An expression shifted to the right.
proof fn shifted_right_runs(
    members: Names,
    st: State,
    locals: Names,
    expr: ExprView,
    shift: u32,
    value_type: ValueType,
    word: u128,
) -> (after: Names)
    requires
        fresh(st, locals),
        shift < value_type.bits(),
        fits(word, value_type.bits()),
        eval(members, locals, expr) == Some(il::Value::of(value_type, word)),
    ensures
        runs_to(members, st, locals, shifted(st, expr, shift, il::BinOp::Shr).0, after),
        eval(members, after, shifted(st, expr, shift, il::BinOp::Shr).1) == Some(
            il::Value::of(value_type, word >> shift),
        ),
{
    of_word(value_type, word);
    if shift == 0 {
        assert(word >> 0u32 == word) by (bit_vector);
        runs_to_self(members, st, locals);
        locals
    } else {
        let value = ExprView::Value { value: il::Value::U32(shift) };
        assert(eval(members, locals, value) == Some(il::Value::U32(shift)));
        temp_runs(members, st, locals, binary(expr, value, il::BinOp::Shr))
    }
}

/// A converted expression holds the same bits, as far as its old type held them.
proof fn converted_runs(
    members: Names,
    st: State,
    locals: Names,
    expr: ExprView,
    source_type: ValueType,
    target_type: ValueType,
    word: u128,
) -> (after: Names)
    requires
        fresh(st, locals),
        eval(members, locals, expr) == Some(il::Value::of(source_type, word)),
    ensures
        runs_to(members, st, locals, converted(st, expr, source_type, target_type).0, after),
        eval(members, after, converted(st, expr, source_type, target_type).1) == Some(
            il::Value::of(target_type, word & mask(source_type.bits())),
        ),
{
    let t = mask(source_type.bits());
    of_word(source_type, word);
    if source_type == target_type {
        mask_again(word, t);
        of_same(source_type, word & t, word);
        runs_to_self(members, st, locals);
        locals
    } else if target_type == ValueType::Bool {
        let after1 = masked_runs(members, st, locals, expr, 1, source_type, word);
        let (st1, expr1) = masked(st, expr, 1, source_type);
        let zero = ExprView::Value { value: il::Value::of(source_type, 0) };
        mask_values();
        of_word(source_type, 0);
        of_word(source_type, word & 1);
        mask_within(1, source_type.bits());
        assert(0u128 & t == 0u128) by (bit_vector);
        assert(1 & t == 1 ==> ((word & 1) & t != 0) == ((word & t) & 1 == 1)) by (bit_vector);
        assert(eval(members, after1, zero) == Some(il::Value::of(source_type, 0)));
        let after2 = temp_runs(members, st1, after1, binary(expr1, zero, il::BinOp::NotEqual));
        runs_to_trans(
            members,
            st,
            locals,
            st1,
            after1,
            converted(st, expr, source_type, target_type).0,
            after2,
        );
        after2
    } else {
        temp_runs(members, st, locals, ExprView::Cast { source: Box::new(expr), target_type })
    }
}

proof fn un_op_runs(
    members: Names,
    st: State,
    locals: Names,
    source: ExprView,
    width: u32,
    word: u128,
) -> (after: Names)
    requires
        fresh(st, locals),
        1 <= width <= 128,
        eval(members, locals, source) == Some(stands_for(width, word)),
    ensures
        runs_to(members, st, locals, lower_un_op(st, source, width).0, after),
        eval(members, after, lower_un_op(st, source, width).1) == Some(
            stands_for(width, !word & mask(width)),
        ),
{
    let value_type = ValueType::holding(width);
    let (m, t) = (mask(width), mask(value_type.bits()));
    of_word(value_type, word);
    let not = ExprView::UnOp { source: Box::new(source), op: UnOp::Not };
    let after1 = temp_runs(members, st, locals, not);
    let (st1, expr1) = temp(st, not);
    let after2 = masked_runs(members, st1, after1, expr1, width, value_type, !(word & t));
    mask_within(width, value_type.bits());
    assert(m & t == m ==> !(word & t) & m == !word & m) by (bit_vector);
    runs_to_trans(
        members,
        st,
        locals,
        st1,
        after1,
        masked(st1, expr1, width, value_type).0,
        after2,
    );
    after2
}

/// The value of an operation on words of one type.
proof fn binary_of(op: BinOp, value_type: ValueType, a: u128, b: u128)
    requires
        fits(a, value_type.bits()),
        fits(b, value_type.bits()),
        op == BinOp::Add ==> value_type != ValueType::Bool,
    ensures
        binary_value(
            bin_op(op),
            il::Value::of(value_type, a),
            il::Value::of(value_type, b),
        ) == Some(
            if op.is_comparison() {
                il::Value::of(ValueType::Bool, bin_op_value(op, a, b, 1))
            } else if op == BinOp::Add {
                il::Value::of(value_type, (a + b) as u128)
            } else {
                il::Value::of(value_type, bin_op_value(op, a, b, 1))
            },
        ),
{
    of_word(value_type, a);
    of_word(value_type, b);
    assert(0u128 & 1 != 1 && 1u128 & 1 == 1) by (bit_vector);
}

proof fn bin_op_runs(
    members: Names,
    st: State,
    locals: Names,
    lhs: ExprView,
    rhs: ExprView,
    op: BinOp,
    source_width: u32,
    target_width: u32,
    a: u128,
    b: u128,
) -> (after: Names)
    requires
        fresh(st, locals),
        1 <= source_width <= 128,
        target_width == (if op.is_comparison() {
            1
        } else {
            source_width
        }),
        fits(a, source_width),
        fits(b, source_width),
        eval(members, locals, lhs) == Some(stands_for(source_width, a)),
        eval(members, locals, rhs) == Some(stands_for(source_width, b)),
    ensures
        runs_to(
            members,
            st,
            locals,
            lower_bin_op(st, lhs, rhs, op, source_width, target_width).0,
            after,
        ),
        eval(
            members,
            after,
            lower_bin_op(st, lhs, rhs, op, source_width, target_width).1,
        ) == Some(stands_for(target_width, bin_op_value(op, a, b, target_width))),
{
    let source_type = ValueType::holding(source_width);
    let input_type = op_input_type(op, source_type);
    let output_type = if op.is_comparison() {
        ValueType::Bool
    } else {
        input_type
    };
    let target_type = ValueType::holding(target_width);
    fits_more(a, source_width, source_type.bits());
    fits_more(b, source_width, source_type.bits());
    fits_more(a, source_width, input_type.bits());
    fits_more(b, source_width, input_type.bits());
    // The operands, in the type of the operation.
    let l1 = converted_runs(members, st, locals, lhs, source_type, input_type, a);
    let (st1, e1) = converted(st, lhs, source_type, input_type);
    eval_more(members, locals, l1, rhs);
    let l2 = converted_runs(members, st1, l1, rhs, source_type, input_type, b);
    let (st2, e2) = converted(st1, rhs, source_type, input_type);
    runs_to_trans(members, st, locals, st1, l1, st2, l2);
    eval_more(members, l1, l2, e1);
    // The operation.
    binary_of(op, input_type, a, b);
    let l3 = temp_runs(members, st2, l2, binary(e1, e2, bin_op(op)));
    let (st3, e3) = temp(st2, binary(e1, e2, bin_op(op)));
    runs_to_trans(members, st, locals, st2, l2, st3, l3);
    let word = if op == BinOp::Add {
        (a + b) as u128
    } else {
        bin_op_value(op, a, b, target_width)
    };
    assert(eval(members, l3, e3) == Some(il::Value::of(output_type, word)));
    // Its result, in the type and the width of the signal.
    let l4 = converted_runs(members, st3, l3, e3, output_type, target_type, word);
    let (st4, e4) = converted(st3, e3, output_type, target_type);
    runs_to_trans(members, st, locals, st3, l3, st4, l4);
    let o = mask(output_type.bits());
    let l5 = masked_runs(members, st4, l4, e4, target_width, target_type, word & o);
    runs_to_trans(
        members,
        st,
        locals,
        st4,
        l4,
        masked(st4, e4, target_width, target_type).0,
        l5,
    );
    let m = mask(target_width);
    mask_within(target_width, output_type.bits());
    assert(m & o == m ==> (word & o) & m == word & m) by (bit_vector);
    if op != BinOp::Add {
        bin_op_fits(op, a, b, source_width, target_width);
    }
    l5
}

/// The result of an operation fits into its width.
proof fn bin_op_fits(op: BinOp, a: u128, b: u128, source_width: u32, target_width: u32)
    requires
        fits(a, source_width),
        fits(b, source_width),
        target_width == (if op.is_comparison() {
            1
        } else {
            source_width
        }),
    ensures
        fits(bin_op_value(op, a, b, target_width), target_width),
{
    mask_values();
    let m = mask(source_width);
    assert(0u128 & 1 == 0 && 1u128 & 1 == 1) by (bit_vector);
    assert(a & m == a && b & m == b ==> (a & b) & m == a & b && (a | b) & m == a | b && (a ^ b) & m
        == a ^ b) by (bit_vector);
    let sum = (a + b) as u128;
    let n = mask(target_width);
    mask_again(sum, n);
}

proof fn bits_runs(
    members: Names,
    st: State,
    locals: Names,
    source: ExprView,
    range_low: u32,
    source_width: u32,
    target_width: u32,
    word: u128,
) -> (after: Names)
    requires
        fresh(st, locals),
        1 <= source_width <= 128,
        1 <= target_width,
        range_low + target_width <= source_width,
        fits(word, source_width),
        eval(members, locals, source) == Some(stands_for(source_width, word)),
    ensures
        runs_to(
            members,
            st,
            locals,
            lower_bits(st, source, range_low, source_width, target_width).0,
            after,
        ),
        eval(
            members,
            after,
            lower_bits(st, source, range_low, source_width, target_width).1,
        ) == Some(stands_for(target_width, (word >> range_low) & mask(target_width))),
{
    let source_type = ValueType::holding(source_width);
    let target_type = ValueType::holding(target_width);
    let (m, t) = (mask(target_width), mask(source_type.bits()));
    fits_more(word, source_width, source_type.bits());
    let l1 = shifted_right_runs(members, st, locals, source, range_low, source_type, word);
    let (st1, e1) = shifted(st, source, range_low, il::BinOp::Shr);
    let moved = word >> range_low;
    let l2 = converted_runs(members, st1, l1, e1, source_type, target_type, moved);
    let (st2, e2) = converted(st1, e1, source_type, target_type);
    runs_to_trans(members, st, locals, st1, l1, st2, l2);
    let l3 = masked_runs(members, st2, l2, e2, target_width, target_type, moved & t);
    runs_to_trans(
        members,
        st,
        locals,
        st2,
        l2,
        masked(st2, e2, target_width, target_type).0,
        l3,
    );
    mask_within(target_width, source_type.bits());
    assert(m & t == m ==> (moved & t) & m == moved & m) by (bit_vector);
    l3
}

proof fn joined_copies_runs(
    members: Names,
    st: State,
    locals: Names,
    source: ExprView,
    source_width: u32,
    target_width: u32,
    count: nat,
    word: u128,
) -> (after: Names)
    requires
        fresh(st, locals),
        1 <= source_width,
        1 <= count,
        source_width * count <= target_width <= 128,
        eval(members, locals, source) == Some(stands_for(target_width, word)),
    ensures
        runs_to(
            members,
            st,
            locals,
            joined_copies(st, source, source, source_width, count).0,
            after,
        ),
        eval(members, after, joined_copies(st, source, source, source_width, count).1) == Some(
            stands_for(target_width, copies(word, source_width, count)),
        ),
    decreases count,
{
    if count == 1 {
        reveal_with_fuel(copies, 2);
        assert(0u128 | (word << 0u32) == word) by (bit_vector);
        assert(0 * source_width == 0) by (nonlinear_arith);
        runs_to_self(members, st, locals);
        locals
    } else {
        let less = (count - 1) as nat;
        assert(source_width * count == source_width * less + source_width && less * source_width
            == source_width * less && source_width * less >= less) by (nonlinear_arith)
            requires
                less == count - 1,
                source_width >= 1,
        ;
        let target_type = ValueType::holding(target_width);
        let t = mask(target_type.bits());
        let l1 = joined_copies_runs(
            members,
            st,
            locals,
            source,
            source_width,
            target_width,
            less,
            word,
        );
        let (st1, e1) = joined_copies(st, source, source, source_width, less);
        let shift = (less * source_width) as u32;
        eval_more(members, locals, l1, source);
        let l2 = shifted_left_runs(members, st1, l1, source, shift, target_type, word);
        let (st2, e2) = shifted(st1, source, shift, il::BinOp::Shl);
        runs_to_trans(members, st, locals, st1, l1, st2, l2);
        eval_more(members, l1, l2, e1);
        let rest = copies(word, source_width, less);
        let high = word << shift;
        of_word(target_type, rest);
        of_word(target_type, high);
        assert(((rest & t) | (high & t)) & t == (rest | high) & t) by (bit_vector);
        of_same(target_type, (rest & t) | (high & t), rest | high);
        let join = binary(e1, e2, il::BinOp::BitOr);
        let l3 = temp_runs(members, st2, l2, join);
        runs_to_trans(members, st, locals, st2, l2, temp(st2, join).0, l3);
        l3
    }
}

proof fn repeat_runs(
    members: Names,
    st: State,
    locals: Names,
    source: ExprView,
    count: u32,
    source_width: u32,
    target_width: u32,
    word: u128,
) -> (after: Names)
    requires
        fresh(st, locals),
        1 <= source_width <= 128,
        1 <= count,
        source_width * count == target_width,
        target_width <= 128,
        fits(word, source_width),
        eval(members, locals, source) == Some(stands_for(source_width, word)),
    ensures
        runs_to(
            members,
            st,
            locals,
            lower_repeat(st, source, count, source_width, target_width).0,
            after,
        ),
        eval(
            members,
            after,
            lower_repeat(st, source, count, source_width, target_width).1,
        ) == Some(stands_for(target_width, copies(word, source_width, count as nat))),
{
    let source_type = ValueType::holding(source_width);
    let target_type = ValueType::holding(target_width);
    fits_more(word, source_width, source_type.bits());
    let l1 = converted_runs(members, st, locals, source, source_type, target_type, word);
    let (st1, e1) = converted(st, source, source_type, target_type);
    let l2 = joined_copies_runs(
        members,
        st1,
        l1,
        e1,
        source_width,
        target_width,
        count as nat,
        word,
    );
    runs_to_trans(
        members,
        st,
        locals,
        st1,
        l1,
        joined_copies(st1, e1, e1, source_width, count as nat).0,
        l2,
    );
    l2
}

proof fn concat_runs(
    members: Names,
    st: State,
    locals: Names,
    lhs: ExprView,
    rhs: ExprView,
    lhs_width: u32,
    rhs_width: u32,
    target_width: u32,
    a: u128,
    b: u128,
) -> (after: Names)
    requires
        fresh(st, locals),
        1 <= lhs_width,
        1 <= rhs_width,
        lhs_width + rhs_width == target_width,
        target_width <= 128,
        fits(a, lhs_width),
        fits(b, rhs_width),
        eval(members, locals, lhs) == Some(stands_for(lhs_width, a)),
        eval(members, locals, rhs) == Some(stands_for(rhs_width, b)),
    ensures
        runs_to(
            members,
            st,
            locals,
            lower_concat(st, lhs, rhs, lhs_width, rhs_width, target_width).0,
            after,
        ),
        eval(
            members,
            after,
            lower_concat(st, lhs, rhs, lhs_width, rhs_width, target_width).1,
        ) == Some(stands_for(target_width, (a << rhs_width) | b)),
{
    let lhs_type = ValueType::holding(lhs_width);
    let rhs_type = ValueType::holding(rhs_width);
    let target_type = ValueType::holding(target_width);
    let t = mask(target_type.bits());
    fits_more(a, lhs_width, lhs_type.bits());
    fits_more(b, rhs_width, rhs_type.bits());
    let l1 = converted_runs(members, st, locals, lhs, lhs_type, target_type, a);
    let (st1, e1) = converted(st, lhs, lhs_type, target_type);
    eval_more(members, locals, l1, rhs);
    let l2 = converted_runs(members, st1, l1, rhs, rhs_type, target_type, b);
    let (st2, e2) = converted(st1, rhs, rhs_type, target_type);
    runs_to_trans(members, st, locals, st1, l1, st2, l2);
    eval_more(members, l1, l2, e1);
    let l3 = shifted_left_runs(members, st2, l2, e1, rhs_width, target_type, a);
    let (st3, e3) = shifted(st2, e1, rhs_width, il::BinOp::Shl);
    runs_to_trans(members, st, locals, st2, l2, st3, l3);
    eval_more(members, l2, l3, e2);
    let high = a << rhs_width;
    of_word(target_type, high);
    of_word(target_type, b);
    assert(((high & t) | (b & t)) & t == (high | b) & t) by (bit_vector);
    of_same(target_type, (high & t) | (b & t), high | b);
    let join = binary(e3, e2, il::BinOp::BitOr);
    let l4 = temp_runs(members, st3, l3, join);
    runs_to_trans(members, st, locals, st3, l3, temp(st3, join).0, l4);
    l4
}

/// Whether `members` hold what a design is fed with: each port under its own name, and
/// each register that has a name under that.
pub open spec fn feeds(
    g: Graph,
    regs: Map<Node, RegNamesView>,
    stimulus: Stimulus,
    members: Names,
) -> bool {
    &&& stimulus.ports.submap_of(members)
    &&& forall|node: Node|
        #![trigger regs.contains_key(node)]
        #![trigger stimulus.regs.contains_key(node)]
        regs.contains_key(node) && stimulus.regs.contains_key(node) ==> members.contains_pair(
            regs[node].value_name,
            stands_for(g.width(node.signal), stimulus.regs[node]),
        )
}

/// Whether the expressions `exprs` are worth the values `values` of the signals `nodes`.
pub open spec fn worth(
    g: Graph,
    members: Names,
    locals: Names,
    nodes: Seq<Node>,
    exprs: Seq<ExprView>,
    values: Seq<u128>,
) -> bool {
    &&& exprs.len() == nodes.len()
    &&& values.len() == nodes.len()
    &&& forall|i: int|
        0 <= i < nodes.len() ==> {
            &&& g.signal_wf(nodes[i].signal)
            &&& fits(#[trigger] values[i], g.width(nodes[i].signal))
            &&& eval(members, locals, exprs[i]) == Some(
                stands_for(g.width(nodes[i].signal), values[i]),
            )
        }
}

/// Whether the expressions `exprs` are worth the values `values`, each in the width of one
/// of `nodes`.
pub open spec fn carries(
    g: Graph,
    members: Names,
    locals: Names,
    nodes: Seq<Node>,
    exprs: Seq<ExprView>,
    values: Seq<u128>,
) -> bool {
    &&& exprs.len() == nodes.len()
    &&& values.len() == nodes.len()
    &&& forall|i: int|
        0 <= i < nodes.len() ==> {
            &&& 1 <= g.width(nodes[i].signal) <= 128
            &&& fits(#[trigger] values[i], g.width(nodes[i].signal))
            &&& eval(members, locals, exprs[i]) == Some(
                stands_for(g.width(nodes[i].signal), values[i]),
            )
        }
}

/// The expression for a signal is worth what the signal is, where those for its
/// operands are worth what these are.
#[verifier::rlimit(40)]
pub proof fn combine_runs(
    g: Graph,
    stimulus: Stimulus,
    members: Names,
    node: Node,
    st: State,
    locals: Names,
    exprs: Seq<ExprView>,
    values: Seq<u128>,
) -> (after: Names)
    requires
        g.signal_wf(node.signal),
        fresh(st, locals),
        feeds(g, st.regs, stimulus, members),
        g.data(node.signal) is Reg ==> st.regs.contains_key(node),
        operands(g, node) is Some,
        carries(g, members, locals, operands(g, node)->0, exprs, values),
        operation_value(g, stimulus, node, values) is Some,
    ensures
        runs_to(members, st, locals, combine(g, node, st, exprs).0, after),
        eval(members, after, combine(g, node, st, exprs).1) == Some(
            stands_for(g.width(node.signal), operation_value(g, stimulus, node, values)->0),
        ),
{
    let width = g.width(node.signal);
    let nodes = operands(g, node)->0;
    runs_to_self(members, st, locals);
    match g.data(node.signal) {
        SignalData::Lit { value } => {
            if width == 1 {
                let number = value.number();
                mask_values();
                assert(number & 1 == number ==> (number != 0) == (number & 1 == 1))
                    by (bit_vector);
            }
            locals
        },
        SignalData::Input { name } => {
            if node.path.len() == 0 {
                let port = stimulus.ports[name@];
                let expr = ExprView::Ref { name: name@, scope: RefScope::Member };
                assert(stimulus.ports.dom().contains(name@));
                of_word(port.value_type(), port.word());
                port_of(port);
                masked_runs(
                    members,
                    st,
                    locals,
                    expr,
                    width,
                    ValueType::holding(width),
                    port.word(),
                )
            } else {
                assert(fits(values[0], width));
                locals
            }
        },
        SignalData::Reg { .. } => {
            assert(stimulus.regs.contains_key(node));
            locals
        },
        SignalData::UnOp { source, .. } => {
            assert(fits(values[0], g.width(nodes[0].signal)));
            un_op_runs(members, st, locals, exprs[0], g.width(source), values[0])
        },
        SignalData::BinOp { lhs, rhs, op } => {
            assert(fits(values[0], g.width(nodes[0].signal)));
            assert(fits(values[1], g.width(nodes[1].signal)));
            bin_op_runs(
                members,
                st,
                locals,
                exprs[0],
                exprs[1],
                op,
                g.width(lhs),
                width,
                values[0],
                values[1],
            )
        },
        SignalData::Bits { source, range_low, .. } => {
            assert(fits(values[0], g.width(nodes[0].signal)));
            bits_runs(
                members,
                st,
                locals,
                exprs[0],
                range_low,
                g.width(source),
                width,
                values[0],
            )
        },
        SignalData::Repeat { source, count } => {
            assert(fits(values[0], g.width(nodes[0].signal)));
            repeat_runs(
                members,
                st,
                locals,
                exprs[0],
                count,
                g.width(source),
                width,
                values[0],
            )
        },
        SignalData::Concat { lhs, rhs } => {
            assert(fits(values[0], g.width(nodes[0].signal)));
            assert(fits(values[1], g.width(nodes[1].signal)));
            concat_runs(
                members,
                st,
                locals,
                exprs[0],
                exprs[1],
                g.width(lhs),
                g.width(rhs),
                width,
                values[0],
                values[1],
            )
        },
        SignalData::Mux { a, b, sel } => {
            assert(fits(values[0], g.width(b)));
            assert(fits(values[1], g.width(a)));
            assert(fits(values[2], g.width(sel)));
            mask_values();
            let select = values[2];
            assert(select & 1 == select ==> (select & 1 == 1) == (select == 1)) by (bit_vector);
            temp_runs(
                members,
                st,
                locals,
                ExprView::Ternary {
                    lhs: Box::new(exprs[0]),
                    rhs: Box::new(exprs[1]),
                    cond: Box::new(exprs[2]),
                },
            )
        },
        SignalData::InstanceOutput { .. } => {
            assert(fits(values[0], width));
            locals
        },
    }
}

/// A value is made of its own bits.
pub proof fn port_of(port: il::Value)
    ensures
        port == il::Value::of(port.value_type(), port.word()),
{
    of_word(port.value_type(), port.word());
    mask_values();
    let word = port.word();
    assert((word == 0 || word == 1 ==> word & 1 == word) && (word <= 0xffff_ffff ==> word
        & 0xffff_ffff == word) && (word <= 0xffff_ffff_ffff_ffff ==> word & 0xffff_ffff_ffff_ffff
        == word) && word & 0xffff_ffff_ffff_ffff_ffff_ffff_ffff_ffff == word) by (bit_vector);
    same_word(port, il::Value::of(port.value_type(), port.word()));
}

/// The value of a signal fits into its width.
pub proof fn signal_value_fits(g: Graph, stimulus: Stimulus, node: Node, depth: nat)
    requires
        signal_value(g, stimulus, node, depth) is Some,
    ensures
        fits(signal_value(g, stimulus, node, depth)->0, g.width(node.signal)),
    decreases depth, 0nat,
{
    let width = g.width(node.signal);
    let nodes = operands(g, node)->0;
    let less = (depth - 1) as nat;
    signal_values_fit(g, stimulus, nodes, less);
    let values = signal_values(g, stimulus, nodes, less)->0;
    let m = mask(width);
    match g.data(node.signal) {
        SignalData::Lit { .. } => {},
        SignalData::Input { name } => {
            if node.path.len() > 0 {
                assert(fits(values[0], g.width(nodes[0].signal)));
            } else {
                let word = stimulus.ports[name@].word();
                mask_again(word, m);
            }
        },
        SignalData::Reg { .. } => {},
        SignalData::UnOp { .. } => {
            let word = !values[0];
            mask_again(word, m);
        },
        SignalData::BinOp { lhs, rhs, op } => {
            assert(fits(values[0], g.width(nodes[0].signal)));
            assert(fits(values[1], g.width(nodes[1].signal)));
            bin_op_fits(op, values[0], values[1], g.width(lhs), width);
        },
        SignalData::Bits { range_low, .. } => {
            let word = values[0] >> range_low;
            mask_again(word, m);
        },
        SignalData::Repeat { source, count } => {
            assert(fits(values[0], g.width(nodes[0].signal)));
            copies_fit(values[0], g.width(source), count as nat, width);
        },
        SignalData::Concat { lhs, rhs } => {
            assert(fits(values[0], g.width(nodes[0].signal)));
            assert(fits(values[1], g.width(nodes[1].signal)));
            fits_above(values[0], values[1], g.width(lhs), g.width(rhs), width);
        },
        SignalData::Mux { .. } => {
            assert(fits(values[0], g.width(nodes[0].signal)));
            assert(fits(values[1], g.width(nodes[1].signal)));
        },
        SignalData::InstanceOutput { .. } => {
            assert(fits(values[0], g.width(nodes[0].signal)));
        },
    }
}

proof fn signal_values_fit(g: Graph, stimulus: Stimulus, nodes: Seq<Node>, depth: nat)
    requires
        signal_values(g, stimulus, nodes, depth) is Some,
    ensures
        signal_values(g, stimulus, nodes, depth)->0.len() == nodes.len(),
        forall|i: int|
            0 <= i < nodes.len() ==> fits(
                #[trigger] signal_values(g, stimulus, nodes, depth)->0[i],
                g.width(nodes[i].signal),
            ) && g.signal_wf(nodes[i].signal),
    decreases depth, nodes.len() + 1,
{
    if nodes.len() > 0 {
        signal_values_fit(g, stimulus, nodes.drop_last(), depth);
        signal_value_fits(g, stimulus, nodes.last(), depth);
        let values = signal_values(g, stimulus, nodes.drop_last(), depth)->0;
        assert forall|i: int| 0 <= i < nodes.len() implies fits(
            #[trigger] signal_values(g, stimulus, nodes, depth)->0[i],
            g.width(nodes[i].signal),
        ) && g.signal_wf(nodes[i].signal) by {
            if i < nodes.len() - 1 {
                assert(nodes.drop_last()[i] == nodes[i]);
                assert(fits(values[i], g.width(nodes[i].signal)));
            }
        }
    }
}

/// Whether each expression that was compiled is worth what its signal is, in a design
/// that is fed with `stimulus`, and no temporary that is still to come has a value.
pub open spec fn faithful(
    g: Graph,
    stimulus: Stimulus,
    members: Names,
    st: State,
    locals: Names,
) -> bool {
    &&& fresh(st, locals)
    &&& forall|node: Node, depth: nat|
        st.exprs.contains_key(node) && (#[trigger] signal_value(g, stimulus, node, depth)) is Some
            ==> eval(members, locals, st.exprs[node]) == Some(
            stands_for(g.width(node.signal), signal_value(g, stimulus, node, depth)->0),
        )
}

/// A signal has the same value within every depth that is enough for it.
pub proof fn signal_value_depth(
    g: Graph,
    stimulus: Stimulus,
    node: Node,
    depth: nat,
    more: nat,
)
    requires
        signal_value(g, stimulus, node, depth) is Some,
        depth <= more,
    ensures
        signal_value(g, stimulus, node, more) == signal_value(g, stimulus, node, depth),
    decreases depth, 0nat,
{
    signal_values_depth(
        g,
        stimulus,
        operands(g, node)->0,
        (depth - 1) as nat,
        (more - 1) as nat,
    );
}

proof fn signal_values_depth(
    g: Graph,
    stimulus: Stimulus,
    nodes: Seq<Node>,
    depth: nat,
    more: nat,
)
    requires
        signal_values(g, stimulus, nodes, depth) is Some,
        depth <= more,
    ensures
        signal_values(g, stimulus, nodes, more) == signal_values(g, stimulus, nodes, depth),
    decreases depth, nodes.len() + 1,
{
    if nodes.len() > 0 {
        signal_values_depth(g, stimulus, nodes.drop_last(), depth, more);
        signal_value_depth(g, stimulus, nodes.last(), depth, more);
    }
}

proof fn lower_runs(
    g: Graph,
    stimulus: Stimulus,
    members: Names,
    st: State,
    locals: Names,
    node: Node,
    depth: nat,
    value_depth: nat,
) -> (after: Names)
    requires
        lower(g, st, node, depth) is Some,
        faithful(g, stimulus, members, st, locals),
        feeds(g, st.regs, stimulus, members),
        signal_value(g, stimulus, node, value_depth) is Some,
    ensures
        runs_to(members, st, locals, (lower(g, st, node, depth)->0).0, after),
        faithful(g, stimulus, members, (lower(g, st, node, depth)->0).0, after),
        eval(members, after, (lower(g, st, node, depth)->0).1) == Some(
            stands_for(
                g.width(node.signal),
                signal_value(g, stimulus, node, value_depth)->0,
            ),
        ),
    decreases depth, 0nat,
{
    if st.exprs.contains_key(node) {
        runs_to_self(members, st, locals);
        locals
    } else {
        let nodes = operands(g, node)->0;
        let less = (depth - 1) as nat;
        let value_less = (value_depth - 1) as nat;
        let l1 = lower_all_runs(g, stimulus, members, st, locals, nodes, less, value_less);
        let (st1, exprs) = lower_all(g, st, nodes, less)->0;
        lower_all_grows(g, st, nodes, less);
        let values = signal_values(g, stimulus, nodes, value_less)->0;
        assert(carries(g, members, l1, nodes, exprs, values));
        let l2 = combine_runs(g, stimulus, members, node, st1, l1, exprs, values);
        combine_extends(g, node, st1, exprs);
        let (st2, expr) = combine(g, node, st1, exprs);
        let st3 = st2.remember(node, expr);
        runs_to_trans(members, st, locals, st1, l1, st2, l2);
        assert(fresh(st3, l2));
        assert forall|n: Node, d: nat|
            st3.exprs.contains_key(n) && (#[trigger] signal_value(g, stimulus, n, d)) is Some implies eval(
            members,
            l2,
            st3.exprs[n],
        ) == Some(stands_for(g.width(n.signal), signal_value(g, stimulus, n, d)->0)) by {
            if n == node {
                if d <= value_depth {
                    signal_value_depth(g, stimulus, n, d, value_depth);
                } else {
                    signal_value_depth(g, stimulus, n, value_depth, d);
                }
            } else {
                assert(st1.exprs.contains_key(n));
                eval_more(members, l1, l2, st1.exprs[n]);
            }
        }
        l2
    }
}

proof fn lower_all_runs(
    g: Graph,
    stimulus: Stimulus,
    members: Names,
    st: State,
    locals: Names,
    nodes: Seq<Node>,
    depth: nat,
    value_depth: nat,
) -> (after: Names)
    requires
        lower_all(g, st, nodes, depth) is Some,
        faithful(g, stimulus, members, st, locals),
        feeds(g, st.regs, stimulus, members),
        signal_values(g, stimulus, nodes, value_depth) is Some,
    ensures
        runs_to(members, st, locals, (lower_all(g, st, nodes, depth)->0).0, after),
        faithful(g, stimulus, members, (lower_all(g, st, nodes, depth)->0).0, after),
        worth(
            g,
            members,
            after,
            nodes,
            (lower_all(g, st, nodes, depth)->0).1,
            signal_values(g, stimulus, nodes, value_depth)->0,
        ),
    decreases depth, nodes.len() + 1,
{
    if nodes.len() == 0 {
        runs_to_self(members, st, locals);
        locals
    } else {
        let front = nodes.drop_last();
        let l1 = lower_all_runs(g, stimulus, members, st, locals, front, depth, value_depth);
        let (st1, exprs1) = lower_all(g, st, front, depth)->0;
        lower_all_grows(g, st, front, depth);
        let l2 = lower_runs(
            g,
            stimulus,
            members,
            st1,
            l1,
            nodes.last(),
            depth,
            value_depth,
        );
        let (st2, expr) = lower(g, st1, nodes.last(), depth)->0;
        runs_to_trans(members, st, locals, st1, l1, st2, l2);
        signal_value_fits(g, stimulus, nodes.last(), value_depth);
        let values1 = signal_values(g, stimulus, front, value_depth)->0;
        let values = signal_values(g, stimulus, nodes, value_depth)->0;
        let exprs = (lower_all(g, st, nodes, depth)->0).1;
        assert forall|i: int| 0 <= i < nodes.len() implies {
            &&& g.signal_wf(nodes[i].signal)
            &&& fits(#[trigger] values[i], g.width(nodes[i].signal))
            &&& eval(members, l2, exprs[i]) == Some(
                stands_for(g.width(nodes[i].signal), values[i]),
            )
        } by {
            if i < front.len() {
                assert(front[i] == nodes[i]);
                assert(fits(values1[i], g.width(front[i].signal)));
                eval_more(members, l1, l2, exprs1[i]);
            }
        }
        l2
    }
}

/// Compiled code computes the design. Let `members` hold what the design is fed with, and
/// `locals` the values of the temporaries so far, each expression that was compiled before
/// being worth what its signal is. Then the assignments that compiling a signal adds can
/// be carried out, change the value of no temporary that had one, and leave the expression
/// for the signal worth what the signal is; and so for every signal compiled so far.
pub proof fn compiled_code_computes_the_design(
    g: Graph,
    stimulus: Stimulus,
    members: Names,
    st: State,
    locals: Names,
    node: Node,
    depth: nat,
)
    requires
        lowers(g, st, node),
        faithful(g, stimulus, members, st, locals),
        feeds(g, st.regs, stimulus, members),
        signal_value(g, stimulus, node, depth) is Some,
    ensures
        exists|after: Names|
            {
                &&& #[trigger] runs_to(members, st, locals, lowered(g, st, node).0, after)
                &&& faithful(g, stimulus, members, lowered(g, st, node).0, after)
                &&& eval(members, after, lowered(g, st, node).1) == Some(
                    stands_for(
                        g.width(node.signal),
                        signal_value(g, stimulus, node, depth)->0,
                    ),
                )
            },
{
    let lower_depth = choose|depth: nat| (#[trigger] lower(g, st, node, depth)) is Some;
    let after = lower_runs(g, stimulus, members, st, locals, node, lower_depth, depth);
    assert(runs_to(members, st, locals, lowered(g, st, node).0, after));
}

/// Masking takes the low bits, and masking again changes nothing. Let the value of an
/// expression be of type `value_type`. Then the assignments that masking it to `width` bits
/// adds can be carried out, and leave the result worth the remainder by two to the power of
/// `width`, which is less than that power; the result of masking once more is worth the same.
pub proof fn masking_takes_the_low_bits(
    members: Names,
    st: State,
    locals: Names,
    expr: ExprView,
    width: u32,
    value_type: ValueType,
)
    requires
        fresh(st, locals),
        value_type != ValueType::Bool,
        width < value_type.bits(),
        eval(members, locals, expr) is Some,
        eval(members, locals, expr)->0.value_type() == value_type,
    ensures
        ({
            let (st1, e1) = masked(st, expr, width, value_type);
            let (st2, e2) = masked(st1, e1, width, value_type);
            let word = eval(members, locals, expr)->0.word();
            exists|once: Names, twice: Names, value: il::Value|
                {
                    &&& #[trigger] runs_to(members, st, locals, st1, once)
                    &&& #[trigger] runs_to(members, st1, once, st2, twice)
                    &&& value.value_type() == value_type
                    &&& #[trigger] value.word() as int == word as int % pow2(width as nat) as int
                    &&& value.word() < pow2(width as nat)
                    &&& eval(members, once, e1) == Some(value)
                    &&& eval(members, twice, e1) == Some(value)
                    &&& eval(members, twice, e2) == Some(value)
                }
        }),
{
    let (st1, e1) = masked(st, expr, width, value_type);
    let (st2, e2) = masked(st1, e1, width, value_type);
    let port = eval(members, locals, expr)->0;
    let (word, m) = (port.word(), mask(width));
    port_of(port);
    let once = masked_runs(members, st, locals, expr, width, value_type, word);
    let twice = masked_runs(members, st1, once, e1, width, value_type, word & m);
    let value = il::Value::of(value_type, word & m);
    mask_again(word, m);
    eval_more(members, once, twice, e1);
    mask_within(width, value_type.bits());
    fits_more(word & m, width, value_type.bits());
    of_word(value_type, word & m);
    mask_is_remainder(word, width);
    assert(runs_to(members, st, locals, st1, once));
    assert(runs_to(members, st1, once, st2, twice));
    assert(value.word() == word & m);
}

/// Converting keeps the low bits. Let the value of an expression be of type `source_type`.
/// Then the assignments that converting it to `target_type` adds can be carried out, and
/// leave the result worth the low bits of that value, as many as `target_type` holds: all of
/// them, where that is the wider type.
pub proof fn converting_keeps_the_low_bits(
    members: Names,
    st: State,
    locals: Names,
    expr: ExprView,
    source_type: ValueType,
    target_type: ValueType,
)
    requires
        fresh(st, locals),
        eval(members, locals, expr) is Some,
        eval(members, locals, expr)->0.value_type() == source_type,
    ensures
        ({
            let (st1, e1) = converted(st, expr, source_type, target_type);
            let word = eval(members, locals, expr)->0.word();
            exists|after: Names, value: il::Value|
                {
                    &&& #[trigger] runs_to(members, st, locals, st1, after)
                    &&& eval(members, after, e1) == Some(value)
                    &&& value.value_type() == target_type
                    &&& #[trigger] value.word() == word & mask(target_type.bits())
                    &&& source_type.bits() <= target_type.bits() ==> value.word() == word
                }
        }),
{
    let st1 = converted(st, expr, source_type, target_type).0;
    let port = eval(members, locals, expr)->0;
    let word = port.word();
    port_of(port);
    of_word(source_type, word);
    let after = converted_runs(members, st, locals, expr, source_type, target_type, word);
    let value = il::Value::of(target_type, word);
    of_word(target_type, word);
    if source_type.bits() <= target_type.bits() {
        fits_more(word, source_type.bits(), target_type.bits());
    }
    assert(runs_to(members, st, locals, st1, after));
    assert(value.word() == word & mask(target_type.bits()));
}

/// Before anything is compiled, no temporary has a value and there is nothing to compute.
pub proof fn nothing_compiled_is_faithful(g: Graph, stimulus: Stimulus, members: Names)
    ensures
        faithful(g, stimulus, members, State::empty(), Map::empty()),
{
}

} // verus!
