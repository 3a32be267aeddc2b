//! The expression tree: constants, variables, sums, products, and leaves
//! already in canonical rational form.

use crate::rational_expr::{RationalExpression, RationalModel};
use std::collections::VecDeque;
use vstd::prelude::*;

verus! {

/// The sign of an operand: whether it is added or subtracted in a sum,
/// multiplied or divided in a product.
#[derive(Clone, Copy, Debug, PartialEq, Eq, Structural)]
pub enum Type {
    Positive,
    Negative,
}

impl Type {
    /// The opposite sign.
    pub fn rev(self) -> (r: Self)
        ensures
            r == self.reversed(),
    {
        match self {
            Self::Positive => Self::Negative,
            Self::Negative => Self::Positive,
        }
    }

    /// The opposite sign.
    pub open spec fn reversed(self) -> Type {
        match self {
            Type::Positive => Type::Negative,
            Type::Negative => Type::Positive,
        }
    }
}

/// An expression.
#[derive(Debug)]
pub enum Expr {
    /// A constant.
    Constant(usize),
    /// A variable.
    Variable(String),
    /// The sum of the operands, each added or subtracted.
    Sum(VecDeque<Operand>),
    /// The product of the operands, each multiplied or divided.
    Product(VecDeque<Operand>),
    /// An expression already in canonical rational form.
    Rational(RationalExpression),
}

/// An expression with a sign.
#[derive(Debug)]
pub struct Operand {
    pub ty: Type,
    pub expr: Expr,
}

/// The mathematical view of an [`Expr`].
pub enum ExprModel {
    Constant(nat),
    Variable(Seq<char>),
    Sum(Seq<OperandModel>),
    Product(Seq<OperandModel>),
    Rational(RationalModel),
}

/// The mathematical view of an [`Operand`].
pub struct OperandModel {
    pub ty: Type,
    pub expr: ExprModel,
}

/// The view of an expression, by recursion over the tree.
pub open spec fn expr_model(e: Expr) -> ExprModel
    decreases e,
{
    match e {
        Expr::Constant(c) => ExprModel::Constant(c as nat),
        Expr::Variable(name) => ExprModel::Variable(name@),
        Expr::Sum(ops) => ExprModel::Sum(
            Seq::new(
                ops@.len(),
                |i: int|
                    if 0 <= i < ops@.len() {
                        OperandModel { ty: ops@[i].ty, expr: expr_model(ops@[i].expr) }
                    } else {
                        arbitrary()
                    },
            ),
        ),
        Expr::Product(ops) => ExprModel::Product(
            Seq::new(
                ops@.len(),
                |i: int|
                    if 0 <= i < ops@.len() {
                        OperandModel { ty: ops@[i].ty, expr: expr_model(ops@[i].expr) }
                    } else {
                        arbitrary()
                    },
            ),
        ),
        Expr::Rational(r) => ExprModel::Rational(r@),
    }
}

impl View for Expr {
    type V = ExprModel;

    open spec fn view(&self) -> ExprModel {
        expr_model(*self)
    }
}

impl View for Operand {
    type V = OperandModel;

    open spec fn view(&self) -> OperandModel {
        OperandModel { ty: self.ty, expr: self.expr@ }
    }
}

/// The views of the operands of a list.
pub open spec fn operands_view(ops: Seq<Operand>) -> Seq<OperandModel> {
    Seq::new(ops.len(), |i: int| ops[i]@)
}

/// The operands of a sum or a product are the views of its list.
pub proof fn lemma_operands_view(e: Expr)
    ensures
        e matches Expr::Sum(ops) ==> e@ == ExprModel::Sum(operands_view(ops@)),
        e matches Expr::Product(ops) ==> e@ == ExprModel::Product(operands_view(ops@)),
{
    match e {
        Expr::Sum(ops) => {
            assert(e@->Sum_0 =~= operands_view(ops@));
        },
        Expr::Product(ops) => {
            assert(e@->Product_0 =~= operands_view(ops@));
        },
        _ => {},
    }
}

/// The operands with every sign reversed.
pub open spec fn reversed_operands(ops: Seq<OperandModel>) -> Seq<OperandModel> {
    Seq::new(ops.len(), |i: int| OperandModel { ty: ops[i].ty.reversed(), expr: ops[i].expr })
}

impl OperandModel {
    /// `e` with the positive sign.
    pub open spec fn positive(e: ExprModel) -> OperandModel {
        OperandModel { ty: Type::Positive, expr: e }
    }

    /// `e` with the negative sign.
    pub open spec fn negative(e: ExprModel) -> OperandModel {
        OperandModel { ty: Type::Negative, expr: e }
    }
}

impl ExprModel {
    /// The operands that `self` brings to a sum: its own, if it is a sum.
    pub open spec fn summands(self) -> Seq<OperandModel> {
        match self {
            ExprModel::Sum(ops) => ops,
            _ => seq![OperandModel::positive(self)],
        }
    }

    /// The operands that `self` brings to a product: its own, if it is a
    /// product.
    pub open spec fn multiplicands(self) -> Seq<OperandModel> {
        match self {
            ExprModel::Product(ops) => ops,
            _ => seq![OperandModel::positive(self)],
        }
    }

    /// `self + rhs`, nested sums flattened.
    pub open spec fn plus(self, rhs: ExprModel) -> ExprModel {
        ExprModel::Sum(self.summands() + rhs.summands())
    }

    /// `self - rhs`, nested sums flattened.
    pub open spec fn minus(self, rhs: ExprModel) -> ExprModel {
        ExprModel::Sum(self.summands() + reversed_operands(rhs.summands()))
    }

    /// `self * rhs`, nested products flattened.
    pub open spec fn times(self, rhs: ExprModel) -> ExprModel {
        ExprModel::Product(self.multiplicands() + rhs.multiplicands())
    }

    /// `self / rhs`, nested products flattened.
    pub open spec fn over(self, rhs: ExprModel) -> ExprModel {
        ExprModel::Product(self.multiplicands() + reversed_operands(rhs.multiplicands()))
    }
}

/// A copy of a list of operands.
#[verifier::loop_isolation(false)]
fn clone_operands(ops: &VecDeque<Operand>) -> (r: VecDeque<Operand>)
    ensures
        operands_view(r@) == operands_view(ops@),
    decreases ops,
{
    let mut out: VecDeque<Operand> = VecDeque::new();
    let mut i: usize = 0;
    while i < ops.len()
        invariant
            0 <= i <= ops.len(),
            out@.len() == i,
            forall|j: int| 0 <= j < i ==> (#[trigger] out@[j])@ == ops@[j]@,
        decreases ops.len() - i,
    {
        let op = &ops[i];
        out.push_back(Operand { ty: op.ty, expr: op.expr.duplicate() });
        i += 1;
    }
    assert(operands_view(out@) =~= operands_view(ops@));
    out
}

impl Expr {
    /// A copy of the expression.
    pub fn duplicate(&self) -> (r: Expr)
        ensures
            r@ == self@,
        decreases self,
    {
        match self {
            Expr::Constant(c) => Expr::Constant(*c),
            Expr::Variable(name) => Expr::Variable(name.clone()),
            Expr::Sum(ops) => {
                let r = Expr::Sum(clone_operands(ops));
                proof {
                    lemma_operands_view(r);
                    lemma_operands_view(*self);
                }
                r
            },
            Expr::Product(ops) => {
                let r = Expr::Product(clone_operands(ops));
                proof {
                    lemma_operands_view(r);
                    lemma_operands_view(*self);
                }
                r
            },
            Expr::Rational(r) => Expr::Rational(r.clone()),
        }
    }

    /// The constant `value`.
    pub fn constant(value: usize) -> (r: Expr)
        ensures
            r@ == ExprModel::Constant(value as nat),
    {
        Expr::Constant(value)
    }

    /// The variable named `symbol`.
    pub fn var(symbol: &str) -> (r: Expr)
        ensures
            r@ == ExprModel::Variable(symbol@),
    {
        Expr::Variable(symbol.to_owned())
    }

    /// The expression as an operand that is added or multiplied.
    pub fn positive(self) -> (r: Operand)
        ensures
            r@ == OperandModel::positive(self@),
    {
        Operand { ty: Type::Positive, expr: self }
    }

    /// The expression as an operand that is subtracted or divided.
    pub fn negative(self) -> (r: Operand)
        ensures
            r@ == OperandModel::negative(self@),
    {
        Operand { ty: Type::Negative, expr: self }
    }
}

impl Clone for Expr {
    fn clone(&self) -> (r: Self)
        ensures
            r@ == self@,
    {
        self.duplicate()
    }
}

impl Clone for Operand {
    fn clone(&self) -> (r: Self)
        ensures
            r@ == self@,
    {
        Operand { ty: self.ty, expr: self.expr.duplicate() }
    }
}

impl Default for Expr {
    fn default() -> (r: Self)
        ensures
            r@ == ExprModel::Constant(0),
    {
        Expr::Constant(0)
    }
}

impl Operand {
    /// Reverses the sign in place.
    pub fn rev_assign(&mut self)
        ensures
            final(self)@ == (OperandModel { ty: old(self)@.ty.reversed(), expr: old(self)@.expr }),
    {
        self.ty = self.ty.rev()
    }
}

} // verus!
