//! The intermediate language that simulator code is generated in.

use vstd::prelude::*;

verus! {

/// The type of a value: the narrowest machine type that holds a signal.
#[derive(Clone, Copy, PartialEq, Eq, Structural, Debug)]
pub enum ValueType {
    Bool,
    U32,
    U64,
    U128,
}

impl ValueType {
    /// The number of bits that a value of this type holds.
    pub open spec fn bits(self) -> u32 {
        match self {
            ValueType::Bool => 1,
            ValueType::U32 => 32,
            ValueType::U64 => 64,
            ValueType::U128 => 128,
        }
    }

    /// The narrowest type with room for `bit_width` bits.
    pub open spec fn holding(bit_width: u32) -> ValueType {
        if bit_width == 1 {
            ValueType::Bool
        } else if bit_width <= 32 {
            ValueType::U32
        } else if bit_width <= 64 {
            ValueType::U64
        } else {
            ValueType::U128
        }
    }

    /// Returns the narrowest type with room for `bit_width` bits.
    pub fn from_bit_width(bit_width: u32) -> (value_type: ValueType)
        requires
            1 <= bit_width <= 128,
        ensures
            value_type == ValueType::holding(bit_width),
            bit_width <= value_type.bits(),
            value_type == ValueType::Bool <==> bit_width == 1,
            value_type == ValueType::U32 <==> 2 <= bit_width <= 32,
            value_type == ValueType::U64 <==> 33 <= bit_width <= 64,
            value_type == ValueType::U128 <==> 65 <= bit_width,
    {
        if bit_width == 1 {
            ValueType::Bool
        } else if bit_width <= 32 {
            ValueType::U32
        } else if bit_width <= 64 {
            ValueType::U64
        } else {
            ValueType::U128
        }
    }

    /// Returns the number of bits that a value of this type holds.
    pub fn bit_width(&self) -> (bit_width: u32)
        ensures
            bit_width == self.bits(),
            bit_width == (match self {
                ValueType::Bool => 1u32,
                ValueType::U32 => 32u32,
                ValueType::U64 => 64u32,
                ValueType::U128 => 128u32,
            }),
    {
        match self {
            ValueType::Bool => 1,
            ValueType::U32 => 32,
            ValueType::U64 => 64,
            ValueType::U128 => 128,
        }
    }
}

/// A constant.
#[derive(Clone, Copy, PartialEq, Eq, Structural, Debug)]
pub enum Value {
    Bool(bool),
    U32(u32),
    U64(u64),
    U128(u128),
}

impl Value {
    /// The type of the value.
    pub open spec fn value_type(self) -> ValueType {
        match self {
            Value::Bool(_) => ValueType::Bool,
            Value::U32(_) => ValueType::U32,
            Value::U64(_) => ValueType::U64,
            Value::U128(_) => ValueType::U128,
        }
    }

    /// The bits of the value, as a number.
    pub open spec fn word(self) -> u128 {
        match self {
            Value::Bool(value) => if value {
                1
            } else {
                0
            },
            Value::U32(value) => value as u128,
            Value::U64(value) => value as u128,
            Value::U128(value) => value,
        }
    }

    /// The value of type `value_type` made of the low bits of `word`.
    pub open spec fn of(value_type: ValueType, word: u128) -> Value {
        match value_type {
            ValueType::Bool => Value::Bool(word & 1 == 1),
            ValueType::U32 => Value::U32(word as u32),
            ValueType::U64 => Value::U64(word as u64),
            ValueType::U128 => Value::U128(word),
        }
    }
}

/// An operation on one operand.
#[derive(Clone, Copy, PartialEq, Eq, Structural, Debug)]
pub enum UnOp {
    Not,
}

/// An operation on two operands.
#[derive(Clone, Copy, PartialEq, Eq, Structural, Debug)]
pub enum BinOp {
    Add,
    BitAnd,
    BitOr,
    BitXor,
    Equal,
    NotEqual,
    LessThan,
    LessThanEqual,
    GreaterThan,
    GreaterThanEqual,
    Shl,
    Shr,
}

/// Where the name that an expression reads is declared.
#[derive(Clone, Copy, PartialEq, Eq, Structural, Debug)]
pub enum RefScope {
    Local,
    Member,
}

/// Where the name that an assignment writes is declared.
#[derive(Clone, Copy, PartialEq, Eq, Structural, Debug)]
pub enum TargetScope {
    Local,
    Member,
}

/// An expression.
#[derive(PartialEq, Eq, Debug)]
#[allow(inconsistent_fields)]
pub enum Expr {
    Value { value: Value },
    Ref { name: String, scope: RefScope },
    UnOp { source: Box<Expr>, op: UnOp },
    BinOp { lhs: Box<Expr>, rhs: Box<Expr>, op: BinOp },
    /// `lhs` where `cond` holds, `rhs` where it does not.
    Ternary { lhs: Box<Expr>, rhs: Box<Expr>, cond: Box<Expr> },
    Cast { source: Box<Expr>, target_type: ValueType },
}

/// What an [`Expr`] stands for: the same tree, its names as character sequences.
#[allow(inconsistent_fields)]
pub enum ExprView {
    Value { value: Value },
    Ref { name: Seq<char>, scope: RefScope },
    UnOp { source: Box<ExprView>, op: UnOp },
    BinOp { lhs: Box<ExprView>, rhs: Box<ExprView>, op: BinOp },
    Ternary { lhs: Box<ExprView>, rhs: Box<ExprView>, cond: Box<ExprView> },
    Cast { source: Box<ExprView>, target_type: ValueType },
}

impl Expr {
    /// What the expression stands for.
    pub open spec fn tree(self) -> ExprView
        decreases self,
    {
        match self {
            Expr::Value { value } => ExprView::Value { value },
            Expr::Ref { name, scope } => ExprView::Ref { name: name@, scope },
            Expr::UnOp { source, op } => ExprView::UnOp { source: Box::new(source.tree()), op },
            Expr::BinOp { lhs, rhs, op } => ExprView::BinOp {
                lhs: Box::new(lhs.tree()),
                rhs: Box::new(rhs.tree()),
                op,
            },
            Expr::Ternary { lhs, rhs, cond } => ExprView::Ternary {
                lhs: Box::new(lhs.tree()),
                rhs: Box::new(rhs.tree()),
                cond: Box::new(cond.tree()),
            },
            Expr::Cast { source, target_type } => ExprView::Cast {
                source: Box::new(source.tree()),
                target_type,
            },
        }
    }
}

impl View for Expr {
    type V = ExprView;

    open spec fn view(&self) -> ExprView {
        self.tree()
    }
}

impl Clone for Expr {
    fn clone(&self) -> (copy: Expr)
        ensures
            copy@ == self@,
        decreases self,
    {
        match self {
            Expr::Value { value } => Expr::Value { value: *value },
            Expr::Ref { name, scope } => Expr::Ref { name: name.clone(), scope: *scope },
            Expr::UnOp { source, op } => Expr::UnOp {
                source: Box::new((**source).clone()),
                op: *op,
            },
            Expr::BinOp { lhs, rhs, op } => Expr::BinOp {
                lhs: Box::new((**lhs).clone()),
                rhs: Box::new((**rhs).clone()),
                op: *op,
            },
            Expr::Ternary { lhs, rhs, cond } => Expr::Ternary {
                lhs: Box::new((**lhs).clone()),
                rhs: Box::new((**rhs).clone()),
                cond: Box::new((**cond).clone()),
            },
            Expr::Cast { source, target_type } => Expr::Cast {
                source: Box::new((**source).clone()),
                target_type: *target_type,
            },
        }
    }
}

/// An assignment of an expression to a name.
#[derive(PartialEq, Eq, Debug)]
pub struct Assignment {
    pub target_scope: TargetScope,
    pub target_name: String,
    pub expr: Expr,
}

/// What an [`Assignment`] stands for.
pub struct AssignmentView {
    pub target_scope: TargetScope,
    pub target_name: Seq<char>,
    pub expr: ExprView,
}

impl View for Assignment {
    type V = AssignmentView;

    open spec fn view(&self) -> AssignmentView {
        AssignmentView {
            target_scope: self.target_scope,
            target_name: self.target_name@,
            expr: self.expr@,
        }
    }
}

} // verus!
