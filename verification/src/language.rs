//! What the intermediate language means, in numbers: types, constants, names, expressions
//! and assignments.

use crate::graph;
use crate::il::{
    Assignment, AssignmentView, BinOp, Expr, ExprView, RefScope, TargetScope, UnOp, Value,
    ValueType,
};
use crate::name::{decimal, reg_next_name, reg_value_name, temp_name};
use crate::semantics::{eval, run};
use crate::words::{
    complement_in_numbers, fits_below, full_width, low_bits_are_remainder, of_word,
    shift_left_multiplies, shift_right_divides,
};
use vstd::arithmetic::div_mod::{lemma_mod_mod, lemma_small_mod};
use vstd::arithmetic::power2::{lemma2_to64, lemma_pow2_adds, lemma_pow2_pos, pow2};
use vstd::prelude::*;

verus! {

/// A signal is held in the narrowest of the types with 1, 32, 64 and 128 bits that has room
/// for it.
pub proof fn types_are_the_narrowest(bit_width: u32)
    requires
        1 <= bit_width <= 128,
    ensures
        ValueType::Bool.bits() == 1,
        ValueType::U32.bits() == 32,
        ValueType::U64.bits() == 64,
        ValueType::U128.bits() == 128,
        bit_width <= ValueType::holding(bit_width).bits(),
        forall|t: ValueType|
            bit_width <= #[trigger] t.bits() ==> ValueType::holding(bit_width).bits() <= t.bits(),
{
}

/// A constant is worth, as a number, what it was built with, and has the type that it was
/// built for.
pub proof fn constants_are_worth_their_numbers(truth: bool, x: u32, y: u64, z: u128)
    ensures
        Value::Bool(truth).word() as int == (if truth {
            1int
        } else {
            0int
        }),
        Value::U32(x).word() as int == x as int,
        Value::U64(y).word() as int == y as int,
        Value::U128(z).word() as int == z as int,
        Value::Bool(truth).value_type() == ValueType::Bool,
        Value::U32(x).value_type() == ValueType::U32,
        Value::U64(y).value_type() == ValueType::U64,
        Value::U128(z).value_type() == ValueType::U128,
{
}

/// A literal is worth, as a number, what it was built with.
pub proof fn literals_are_worth_their_numbers(truth: bool, x: u32, y: u64, z: u128)
    ensures
        graph::Value::Bool(truth).number() as int == (if truth {
            1int
        } else {
            0int
        }),
        graph::Value::U32(x).number() as int == x as int,
        graph::Value::U64(y).number() as int == y as int,
        graph::Value::U128(z).number() as int == z as int,
{
}

/// A constant made from a word holds as many of its low bits as the type has room for.
pub proof fn constants_hold_low_bits(value_type: ValueType, word: u128)
    ensures
        Value::of(value_type, word).value_type() == value_type,
        Value::of(value_type, word).word() as int == word as int % pow2(
            value_type.bits() as nat,
        ) as int,
{
    of_word(value_type, word);
    low_bits_are_remainder(word, value_type.bits());
}

/// No constant is worth more than its type has room for.
pub proof fn constants_are_within_their_types(value: Value)
    ensures
        value.word() < pow2(value.value_type().bits() as nat),
{
    lemma2_to64();
    full_width();
}

/// An expression stands for the tree that it is, its names as characters.
pub proof fn expressions_stand_for_themselves(
    value: Value,
    name: String,
    scope: RefScope,
    a: Box<Expr>,
    b: Box<Expr>,
    c: Box<Expr>,
    un_op: UnOp,
    op: BinOp,
    target_type: ValueType,
)
    ensures
        (Expr::Value { value })@ == (ExprView::Value { value }),
        (Expr::Ref { name, scope })@ == (ExprView::Ref { name: name@, scope }),
        (Expr::UnOp { source: a, op: un_op })@ == (ExprView::UnOp {
            source: Box::new(a@),
            op: un_op,
        }),
        (Expr::BinOp { lhs: a, rhs: b, op })@ == (ExprView::BinOp {
            lhs: Box::new(a@),
            rhs: Box::new(b@),
            op,
        }),
        (Expr::Ternary { lhs: a, rhs: b, cond: c })@ == (ExprView::Ternary {
            lhs: Box::new(a@),
            rhs: Box::new(b@),
            cond: Box::new(c@),
        }),
        (Expr::Cast { source: a, target_type })@ == (ExprView::Cast {
            source: Box::new(a@),
            target_type,
        }),
{
}

/// An assignment stands for what it assigns, and where.
pub proof fn assignments_stand_for_themselves(assignment: Assignment)
    ensures
        assignment@.target_scope == assignment.target_scope,
        assignment@.target_name == assignment.target_name@,
        assignment@.expr == assignment.expr@,
{
}

/// Generated names end in a number in decimal. Those of the numbers up to 9 have one digit;
/// behind the name of a greater number stands one more digit than behind that of its tenth.
pub proof fn names_end_in_decimals(n: nat, d: nat)
    requires
        d < 10,
    ensures
        decimal(d) == seq![(48 + d) as char],
        temp_name(d) == "__temp_"@ + seq![(48 + d) as char],
        reg_value_name(d) == "__reg"@ + seq![(48 + d) as char],
        n > 0 ==> decimal(10 * n + d) == decimal(n).push((48 + d) as char),
        n > 0 ==> temp_name(10 * n + d) == temp_name(n).push((48 + d) as char),
        n > 0 ==> reg_value_name(10 * n + d) == reg_value_name(n).push((48 + d) as char),
        reg_next_name(n) == reg_value_name(n) + "_next"@,
{
    if n > 0 {
        let m = 10 * n + d;
        assert(m / 10 == n && m % 10 == d);
        assert(decimal(m) == decimal(n).push((48 + d) as char));
        assert(temp_name(m) =~= temp_name(n).push((48 + d) as char));
        assert(reg_value_name(m) =~= reg_value_name(n).push((48 + d) as char));
    }
}

/// A constant is worth itself, a name what is held under it in its scope.
pub proof fn names_are_worth_what_they_hold(
    members: Map<Seq<char>, Value>,
    locals: Map<Seq<char>, Value>,
    value: Value,
    name: Seq<char>,
)
    ensures
        eval(members, locals, ExprView::Value { value }) == Some(value),
        eval(members, locals, ExprView::Ref { name, scope: RefScope::Local }) == (
        if locals.contains_key(name) {
            Some(locals[name])
        } else {
            None
        }),
        eval(members, locals, ExprView::Ref { name, scope: RefScope::Member }) == (
        if members.contains_key(name) {
            Some(members[name])
        } else {
            None
        }),
{
}

/// A complement and what it is the complement of have the same type, all of whose bits they
/// make up together.
pub proof fn complements_make_up_the_type(
    members: Map<Seq<char>, Value>,
    locals: Map<Seq<char>, Value>,
    source: ExprView,
)
    ensures
        ({
            let before = eval(members, locals, source);
            let after = eval(
                members,
                locals,
                ExprView::UnOp { source: Box::new(source), op: UnOp::Not },
            );
            &&& before is Some <==> after is Some
            &&& before is Some ==> {
                &&& after->0.value_type() == before->0.value_type()
                &&& after->0.word() + before->0.word() == pow2(
                    before->0.value_type().bits() as nat,
                ) - 1
            }
        }),
{
    let before = eval(members, locals, source);
    if before is Some {
        let value = before->0;
        of_word(value.value_type(), !value.word());
        constants_are_within_their_types(value);
        complement_in_numbers(value.word(), value.value_type().bits());
    }
}

/// Sums wrap around at the width of their type, which both sides have and which is not that
/// of a single bit.
pub proof fn sums_wrap_around(
    members: Map<Seq<char>, Value>,
    locals: Map<Seq<char>, Value>,
    lhs: ExprView,
    rhs: ExprView,
    a: Value,
    b: Value,
)
    requires
        eval(members, locals, lhs) == Some(a),
        eval(members, locals, rhs) == Some(b),
    ensures
        ({
            let sum = eval(
                members,
                locals,
                ExprView::BinOp { lhs: Box::new(lhs), rhs: Box::new(rhs), op: BinOp::Add },
            );
            &&& sum is Some <==> a.value_type() == b.value_type() && a.value_type()
                != ValueType::Bool
            &&& sum is Some ==> {
                &&& sum->0.value_type() == a.value_type()
                &&& sum->0.word() as int == (a.word() + b.word()) % pow2(
                    a.value_type().bits() as nat,
                ) as int
            }
        }),
{
    let (x, y) = (a.word(), b.word());
    constants_hold_low_bits(a.value_type(), (x + y) as u128);
    wrapped_sum(x, y, a.value_type().bits());
}

/// A sum that wrapped around at the greatest width has the same remainders.
pub proof fn wrapped_sum(x: u128, y: u128, width: u32)
    requires
        width <= 128,
    ensures
        ((x + y) as u128) as int % pow2(width as nat) as int == (x + y) % pow2(width as nat) as int,
{
    full_width();
    assert(((x + y) as u128) == (if x + y < 0x1_0000_0000_0000_0000_0000_0000_0000_0000int {
        x + y
    } else {
        x + y - 0x1_0000_0000_0000_0000_0000_0000_0000_0000int
    })) by (bit_vector);
    lemma_pow2_adds(width as nat, (128 - width) as nat);
    lemma_pow2_pos(width as nat);
    lemma_pow2_pos((128 - width) as nat);
    let (p, q) = (pow2(width as nat) as int, pow2((128 - width) as nat) as int);
    lemma_mod_mod(x + y, p, q);
    let n = 0x1_0000_0000_0000_0000_0000_0000_0000_0000int;
    assert(((x + y) as u128) as int == (x + y) % n);
}

/// Bitwise operations and comparisons are on two words of the same type. The former keep
/// it, the latter give a single bit.
pub proof fn words_are_combined_and_compared(
    members: Map<Seq<char>, Value>,
    locals: Map<Seq<char>, Value>,
    lhs: ExprView,
    rhs: ExprView,
    op: BinOp,
    a: Value,
    b: Value,
)
    requires
        eval(members, locals, lhs) == Some(a),
        eval(members, locals, rhs) == Some(b),
        !(op is Add || op is Shl || op is Shr),
    ensures
        ({
            let result = eval(
                members,
                locals,
                ExprView::BinOp { lhs: Box::new(lhs), rhs: Box::new(rhs), op },
            );
            let bitwise = op is BitAnd || op is BitOr || op is BitXor;
            &&& result is Some <==> a.value_type() == b.value_type()
            &&& result is Some && bitwise ==> result->0.value_type() == a.value_type()
            &&& result is Some && !bitwise ==> result->0 is Bool
            &&& result is Some ==> match op {
                BinOp::BitAnd => result->0.word() == a.word() & b.word(),
                BinOp::BitOr => result->0.word() == a.word() | b.word(),
                BinOp::BitXor => result->0.word() == a.word() ^ b.word(),
                BinOp::Equal => result->0 == Value::Bool(a.word() == b.word()),
                BinOp::NotEqual => result->0 == Value::Bool(a.word() != b.word()),
                BinOp::LessThan => result->0 == Value::Bool(a.word() < b.word()),
                BinOp::LessThanEqual => result->0 == Value::Bool(a.word() <= b.word()),
                BinOp::GreaterThan => result->0 == Value::Bool(a.word() > b.word()),
                BinOp::GreaterThanEqual => result->0 == Value::Bool(a.word() >= b.word()),
                _ => true,
            }
        }),
{
    if a.value_type() == b.value_type() {
        let (x, y, t) = (a.word(), b.word(), graph::mask(a.value_type().bits()));
        of_word(a.value_type(), x & y);
        of_word(a.value_type(), x | y);
        of_word(a.value_type(), x ^ y);
        constants_are_within_their_types(a);
        constants_are_within_their_types(b);
        fits_below(x, a.value_type().bits());
        fits_below(y, a.value_type().bits());
        assert(x & t == x && y & t == y ==> (x & y) & t == x & y && (x | y) & t == x | y && (x ^ y)
            & t == x ^ y) by (bit_vector);
    }
}

/// Shifts are of words of more than one bit, by a number of 32 bits that is less than the
/// width of the word's type, which they keep. To the left they multiply, and lose what goes
/// over that width; to the right they divide.
pub proof fn shifts_multiply_and_divide(
    members: Map<Seq<char>, Value>,
    locals: Map<Seq<char>, Value>,
    lhs: ExprView,
    rhs: ExprView,
    a: Value,
    b: Value,
)
    requires
        eval(members, locals, lhs) == Some(a),
        eval(members, locals, rhs) == Some(b),
    ensures
        ({
            let left = eval(
                members,
                locals,
                ExprView::BinOp { lhs: Box::new(lhs), rhs: Box::new(rhs), op: BinOp::Shl },
            );
            let right = eval(
                members,
                locals,
                ExprView::BinOp { lhs: Box::new(lhs), rhs: Box::new(rhs), op: BinOp::Shr },
            );
            let bits = a.value_type().bits();
            let can = !(a is Bool) && b is U32 && b.word() < bits;
            &&& left is Some <==> can
            &&& right is Some <==> can
            &&& can ==> {
                &&& left->0.value_type() == a.value_type()
                &&& right->0.value_type() == a.value_type()
                &&& left->0.word() as int == (a.word() as int * pow2(
                    b.word() as nat,
                ) as int) % pow2(bits as nat) as int
                &&& right->0.word() as int == a.word() as int / pow2(b.word() as nat) as int
            }
        }),
{
    let bits = a.value_type().bits();
    if !(a is Bool) && b is U32 && b.word() < bits {
        let (x, s) = (a.word(), b.word() as u32);
        constants_hold_low_bits(a.value_type(), x << s);
        constants_hold_low_bits(a.value_type(), x >> s);
        shift_left_multiplies(x, s);
        shift_right_divides(x, s);
        constants_are_within_their_types(a);
        lemma_pow2_pos(s as nat);
        lemma_pow2_pos(bits as nat);
        lemma_pow2_pos((128 - bits) as nat);
        let (p, n, q) = (pow2(s as nat) as int, pow2(bits as nat) as int, pow2(
            (128 - bits) as nat,
        ) as int);
        lemma_pow2_adds(bits as nat, (128 - bits) as nat);
        lemma_mod_mod(x as int * p, n, q);
        assert(0 <= x as int / p <= x) by (nonlinear_arith)
            requires
                p >= 1,
                x >= 0,
        ;
        lemma_small_mod((x as int / p) as nat, n as nat);
    }
}

/// A choice is worth its first side where the condition holds, else its second.
pub proof fn choices_go_by_the_condition(
    members: Map<Seq<char>, Value>,
    locals: Map<Seq<char>, Value>,
    lhs: ExprView,
    rhs: ExprView,
    cond: ExprView,
)
    ensures
        ({
            let result = eval(
                members,
                locals,
                ExprView::Ternary {
                    lhs: Box::new(lhs),
                    rhs: Box::new(rhs),
                    cond: Box::new(cond),
                },
            );
            &&& eval(members, locals, cond) == Some(Value::Bool(true)) ==> result == eval(
                members,
                locals,
                lhs,
            )
            &&& eval(members, locals, cond) == Some(Value::Bool(false)) ==> result == eval(
                members,
                locals,
                rhs,
            )
        }),
{
}

/// A conversion to another type than that of a single bit keeps as many of the low bits as
/// that has room for.
pub proof fn conversions_keep_low_bits(
    members: Map<Seq<char>, Value>,
    locals: Map<Seq<char>, Value>,
    source: ExprView,
    target_type: ValueType,
)
    requires
        target_type != ValueType::Bool,
    ensures
        ({
            let before = eval(members, locals, source);
            let after = eval(
                members,
                locals,
                ExprView::Cast { source: Box::new(source), target_type },
            );
            &&& before is Some <==> after is Some
            &&& before is Some ==> {
                &&& after->0.value_type() == target_type
                &&& after->0.word() as int == before->0.word() as int % pow2(
                    target_type.bits() as nat,
                ) as int
            }
        }),
{
    let before = eval(members, locals, source);
    if before is Some {
        constants_hold_low_bits(target_type, before->0.word());
    }
}

/// Assignments take effect one after the other: each to a local gives that the value of its
/// expression, and leaves all others as they are.
pub proof fn assignments_take_effect_in_order(
    members: Map<Seq<char>, Value>,
    locals: Map<Seq<char>, Value>,
    assignments: Seq<AssignmentView>,
    last: AssignmentView,
)
    ensures
        run(members, locals, Seq::empty()) == Some(locals),
        run(members, locals, assignments) is None ==> run(
            members,
            locals,
            assignments.push(last),
        ) is None,
        run(members, locals, assignments) is Some ==> {
            let before = run(members, locals, assignments)->0;
            let after = run(members, locals, assignments.push(last));
            &&& last.target_scope == TargetScope::Member ==> after == Some(before)
            &&& last.target_scope == TargetScope::Local ==> {
                &&& after is Some <==> eval(members, before, last.expr) is Some
                &&& after is Some ==> after->0 == before.insert(
                    last.target_name,
                    eval(members, before, last.expr)->0,
                )
            }
        },
{
    assert(assignments.push(last).drop_last() =~= assignments);
}

} // verus!
