//! Full substitution: the value of an expression once every variable is
//! bound.

use crate::bindings::Bindings;
use crate::eval::ExprError;
use crate::expr::{Expr, ExprModel, lemma_operands_view, OperandModel, operands_view, Type};
use crate::rational_expr::rational_value;
use vstd::prelude::*;

verus! {

/// A sum so far and the value of one more operand. A difference below zero
/// has no value.
pub open spec fn sum_fold(acc: nat, v: nat, ty: Type) -> Result<nat, ExprError> {
    match ty {
        Type::Positive => if acc + v > usize::MAX {
            Err(ExprError::Overflow)
        } else {
            Ok(acc + v)
        },
        Type::Negative => if acc < v {
            Err(ExprError::NonIntegerResult)
        } else {
            Ok((acc - v) as nat)
        },
    }
}

/// A product so far and the value of one more operand. A quotient that is
/// not whole has no value, nor has a quotient by zero.
pub open spec fn product_fold(acc: nat, v: nat, ty: Type) -> Result<nat, ExprError> {
    match ty {
        Type::Positive => if acc * v > usize::MAX {
            Err(ExprError::Overflow)
        } else {
            Ok(acc * v)
        },
        Type::Negative => if v == 0 || acc % v != 0 {
            Err(ExprError::NonIntegerResult)
        } else {
            Ok(acc / v)
        },
    }
}

/// The value of an expression under the bindings `b`. Operands are taken
/// from left to right, and the first one without a value decides the error.
pub open spec fn expr_value(e: ExprModel, b: Map<Seq<char>, usize>) -> Result<nat, ExprError>
    decreases e, 0nat,
{
    match e {
        ExprModel::Constant(c) => Ok(c),
        ExprModel::Variable(v) => if b.contains_key(v) {
            Ok(b[v] as nat)
        } else {
            Err(ExprError::UnknownVariable)
        },
        ExprModel::Sum(ops) => sum_value(ops, b, ops.len()),
        ExprModel::Product(ops) => product_value(ops, b, ops.len()),
        ExprModel::Rational(r) => match rational_value(r, b) {
            Err(e) => Err(e),
            Ok(q) => if q.denom == 1 {
                Ok(
                    if q.numer >= 0 {
                        q.numer as nat
                    } else {
                        (-q.numer) as nat
                    },
                )
            } else {
                Err(ExprError::NonIntegerResult)
            },
        },
    }
}

/// The value of the sum of the first `n` operands, starting from zero.
pub open spec fn sum_value(ops: Seq<OperandModel>, b: Map<Seq<char>, usize>, n: nat) -> Result<
    nat,
    ExprError,
>
    decreases ops, n,
{
    if n == 0 || n > ops.len() {
        Ok(0)
    } else {
        match sum_value(ops, b, (n - 1) as nat) {
            Err(e) => Err(e),
            Ok(acc) => match expr_value(ops[n - 1].expr, b) {
                Err(e) => Err(e),
                Ok(v) => sum_fold(acc, v, ops[n - 1].ty),
            },
        }
    }
}

/// The value of the product of the first `n` operands, starting from one.
pub open spec fn product_value(ops: Seq<OperandModel>, b: Map<Seq<char>, usize>, n: nat) -> Result<
    nat,
    ExprError,
>
    decreases ops, n,
{
    if n == 0 || n > ops.len() {
        Ok(1)
    } else {
        match product_value(ops, b, (n - 1) as nat) {
            Err(e) => Err(e),
            Ok(acc) => match expr_value(ops[n - 1].expr, b) {
                Err(e) => Err(e),
                Ok(v) => product_fold(acc, v, ops[n - 1].ty),
            },
        }
    }
}

/// A sum without a value up to some operand has none, for the same reason.
proof fn lemma_sum_value_fails(ops: Seq<OperandModel>, b: Map<Seq<char>, usize>, k: nat, n: nat)
    requires
        k <= n <= ops.len(),
        sum_value(ops, b, k) is Err,
    ensures
        sum_value(ops, b, n) == sum_value(ops, b, k),
    decreases n - k,
{
    if k < n {
        lemma_sum_value_fails(ops, b, k, (n - 1) as nat);
    }
}

/// A product without a value up to some operand has none, for the same
/// reason.
proof fn lemma_product_value_fails(ops: Seq<OperandModel>, b: Map<Seq<char>, usize>, k: nat, n: nat)
    requires
        k <= n <= ops.len(),
        product_value(ops, b, k) is Err,
    ensures
        product_value(ops, b, n) == product_value(ops, b, k),
    decreases n - k,
{
    if k < n {
        lemma_product_value_fails(ops, b, k, (n - 1) as nat);
    }
}

/// One step of a sum on machine integers.
fn fold_sum(acc: usize, v: usize, ty: Type) -> (r: Result<usize, ExprError>)
    ensures
        match r {
            Ok(x) => sum_fold(acc as nat, v as nat, ty) == Ok::<nat, ExprError>(x as nat),
            Err(e) => sum_fold(acc as nat, v as nat, ty) == Err::<nat, ExprError>(e),
        },
{
    match ty {
        Type::Positive => match acc.checked_add(v) {
            Some(x) => Ok(x),
            None => Err(ExprError::Overflow),
        },
        Type::Negative => if acc < v {
            Err(ExprError::NonIntegerResult)
        } else {
            Ok(acc - v)
        },
    }
}

/// One step of a product on machine integers.
fn fold_product(acc: usize, v: usize, ty: Type) -> (r: Result<usize, ExprError>)
    ensures
        match r {
            Ok(x) => product_fold(acc as nat, v as nat, ty) == Ok::<nat, ExprError>(x as nat),
            Err(e) => product_fold(acc as nat, v as nat, ty) == Err::<nat, ExprError>(e),
        },
{
    match ty {
        Type::Positive => match acc.checked_mul(v) {
            Some(x) => Ok(x),
            None => Err(ExprError::Overflow),
        },
        Type::Negative => if v == 0 || acc % v != 0 {
            Err(ExprError::NonIntegerResult)
        } else {
            Ok(acc / v)
        },
    }
}

impl Expr {
    /// The value of the expression once every variable is bound.
    #[verifier::loop_isolation(false)]
    pub fn substitute(&self, value: &Bindings) -> (r: Result<usize, ExprError>)
        ensures
            match r {
                Ok(x) => expr_value(self@, value@) == Ok::<nat, ExprError>(x as nat),
                Err(e) => expr_value(self@, value@) == Err::<nat, ExprError>(e),
            },
        decreases self,
    {
        proof {
            lemma_operands_view(*self);
        }
        match self {
            Expr::Constant(c) => Ok(*c),
            Expr::Variable(name) => match value.get(name.as_str()) {
                Some(v) => Ok(v),
                None => Err(ExprError::UnknownVariable),
            },
            Expr::Sum(operands) => {
                let ghost ops = operands_view(operands@);
                let mut acc: usize = 0;
                let mut i: usize = 0;
                while i < operands.len()
                    invariant
                        0 <= i <= operands.len(),
                        sum_value(ops, value@, i as nat) == Ok::<nat, ExprError>(acc as nat),
                    decreases operands.len() - i,
                {
                    let operand = &operands[i];
                    assert(ops[i as int] == operand@);
                    let step = match operand.expr.substitute(value) {
                        Ok(v) => fold_sum(acc, v, operand.ty),
                        Err(e) => Err(e),
                    };
                    match step {
                        Ok(x) => {
                            acc = x;
                        },
                        Err(e) => {
                            proof {
                                assert(sum_value(ops, value@, (i + 1) as nat) == Err::<
                                    nat,
                                    ExprError,
                                >(e));
                                lemma_sum_value_fails(ops, value@, (i + 1) as nat, ops.len());
                            }
                            return Err(e);
                        },
                    }
                    i += 1;
                }
                Ok(acc)
            },
            Expr::Product(operands) => {
                let ghost ops = operands_view(operands@);
                let mut acc: usize = 1;
                let mut i: usize = 0;
                while i < operands.len()
                    invariant
                        0 <= i <= operands.len(),
                        product_value(ops, value@, i as nat) == Ok::<nat, ExprError>(acc as nat),
                    decreases operands.len() - i,
                {
                    let operand = &operands[i];
                    assert(ops[i as int] == operand@);
                    let step = match operand.expr.substitute(value) {
                        Ok(v) => fold_product(acc, v, operand.ty),
                        Err(e) => Err(e),
                    };
                    match step {
                        Ok(x) => {
                            acc = x;
                        },
                        Err(e) => {
                            proof {
                                assert(product_value(ops, value@, (i + 1) as nat) == Err::<
                                    nat,
                                    ExprError,
                                >(e));
                                lemma_product_value_fails(ops, value@, (i + 1) as nat, ops.len());
                            }
                            return Err(e);
                        },
                    }
                    i += 1;
                }
                Ok(acc)
            },
            Expr::Rational(rational) => match rational.substitute(value) {
                Err(e) => Err(e),
                Ok(q) => if q.is_integer() {
                    Ok(q.numer_magnitude())
                } else {
                    Err(ExprError::NonIntegerResult)
                },
            },
        }
    }
}

} // verus!
