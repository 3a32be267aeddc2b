//! Lowering: from the expression tree to the canonical rational form.

use crate::expr::{Expr, ExprModel, lemma_operands_view, OperandModel, operands_view, Type};
use crate::rational_expr::{negated, RationalExpression, RationalModel};
use crate::term::{CanonicalTerm, TermModel};
use crate::terms::{clone_terms, terms_product, terms_quotient, terms_sum};
use vstd::prelude::*;

verus! {

/// A sum so far and one more operand: the fractions are brought to the
/// common denominator `acc.denom * r.denom` and added, or subtracted for a
/// negative operand.
pub open spec fn sum_step(acc: RationalModel, r: RationalModel, ty: Type) -> Option<RationalModel> {
    let signed = match ty {
        Type::Positive => Some(r.numer),
        Type::Negative => negated(r.numer),
    };
    match signed {
        Some(n) => match (
            terms_product(acc.numer, r.denom),
            terms_product(n, acc.denom),
            terms_product(acc.denom, r.denom),
        ) {
            (Some(x), Some(y), Some(d)) => match terms_sum(x, y) {
                Some(s) => if d.len() == 0 {
                    None
                } else {
                    Some(RationalModel { numer: s, denom: d })
                },
                None => None,
            },
            _ => None,
        },
        None => None,
    }
}

/// A product so far and one more operand, inverted first if it is negative.
/// A denominator of one term is divided into the numerator at once; a longer
/// one is multiplied into the denominator.
pub open spec fn product_step(acc: RationalModel, r: RationalModel, ty: Type) -> Option<
    RationalModel,
> {
    let n = match ty {
        Type::Positive => r.numer,
        Type::Negative => r.denom,
    };
    let d = match ty {
        Type::Positive => r.denom,
        Type::Negative => r.numer,
    };
    if d.len() > 1 {
        match (terms_product(acc.numer, n), terms_product(acc.denom, d)) {
            (Some(x), Some(y)) => if y.len() == 0 {
                None
            } else {
                Some(RationalModel { numer: x, denom: y })
            },
            _ => None,
        }
    } else if d.len() == 1 {
        match terms_product(acc.numer, n) {
            Some(x) => match terms_quotient(x, d[0]) {
                Some(q) => Some(RationalModel { numer: q, denom: acc.denom }),
                None => None,
            },
            None => None,
        }
    } else {
        None
    }
}

/// The canonical rational form of an expression. `None` where the arithmetic
/// overflows, a constant does not fit a machine integer, or a denominator
/// comes out empty.
pub open spec fn lower(e: ExprModel) -> Option<RationalModel>
    decreases e, 0nat,
{
    match e {
        ExprModel::Constant(c) => if c <= isize::MAX {
            Some(RationalModel::whole(seq![TermModel::constant(c as int)]))
        } else {
            None
        },
        ExprModel::Variable(v) => Some(RationalModel::whole(seq![TermModel::variable(1, v)])),
        ExprModel::Sum(ops) => lower_sum(ops, ops.len()),
        ExprModel::Product(ops) => lower_product(ops, ops.len()),
        ExprModel::Rational(r) => Some(r),
    }
}

/// The canonical rational form of the sum of the first `n` operands.
pub open spec fn lower_sum(ops: Seq<OperandModel>, n: nat) -> Option<RationalModel>
    decreases ops, n,
{
    if n == 0 || n > ops.len() {
        Some(RationalModel::zero())
    } else {
        match (lower_sum(ops, (n - 1) as nat), lower(ops[n - 1].expr)) {
            (Some(acc), Some(r)) => sum_step(acc, r, ops[n - 1].ty),
            _ => None,
        }
    }
}

/// The canonical rational form of the product of the first `n` operands.
pub open spec fn lower_product(ops: Seq<OperandModel>, n: nat) -> Option<RationalModel>
    decreases ops, n,
{
    if n == 0 || n > ops.len() {
        Some(RationalModel::one())
    } else {
        match (lower_product(ops, (n - 1) as nat), lower(ops[n - 1].expr)) {
            (Some(acc), Some(r)) => product_step(acc, r, ops[n - 1].ty),
            _ => None,
        }
    }
}

/// A sum that cannot be lowered up to some operand cannot be lowered.
proof fn lemma_lower_sum_fails(ops: Seq<OperandModel>, k: nat, n: nat)
    requires
        k <= n <= ops.len(),
        lower_sum(ops, k) is None,
    ensures
        lower_sum(ops, n) is None,
    decreases n - k,
{
    if k < n {
        lemma_lower_sum_fails(ops, k, (n - 1) as nat);
    }
}

/// A product that cannot be lowered up to some operand cannot be lowered.
proof fn lemma_lower_product_fails(ops: Seq<OperandModel>, k: nat, n: nat)
    requires
        k <= n <= ops.len(),
        lower_product(ops, k) is None,
    ensures
        lower_product(ops, n) is None,
    decreases n - k,
{
    if k < n {
        lemma_lower_product_fails(ops, k, (n - 1) as nat);
    }
}

/// One step of a sum on the canonical forms themselves.
fn add_operand(acc: &RationalExpression, operand: RationalExpression, ty: Type) -> (r: Option<
    RationalExpression,
>)
    ensures
        match r {
            Some(e) => sum_step(acc@, operand@, ty) == Some(e@),
            None => sum_step(acc@, operand@, ty) is None,
        },
{
    let mut rational = operand;
    match ty {
        Type::Positive => {},
        Type::Negative => {
            if !rational.neg() {
                return None;
            }
        },
    }
    let x = match CanonicalTerm::multiply_terms(acc.numer(), rational.denom()) {
        Some(x) => x,
        None => {
            return None;
        },
    };
    let y = match CanonicalTerm::multiply_terms(rational.numer(), acc.denom()) {
        Some(y) => y,
        None => {
            return None;
        },
    };
    let d = match CanonicalTerm::multiply_terms(acc.denom(), rational.denom()) {
        Some(d) => d,
        None => {
            return None;
        },
    };
    let s = match CanonicalTerm::sum_terms(&x, &y) {
        Some(s) => s,
        None => {
            return None;
        },
    };
    match RationalExpression::new(s, d) {
        Ok(e) => Some(e),
        Err(_) => None,
    }
}

/// One step of a product on the canonical forms themselves.
fn multiply_operand(acc: RationalExpression, operand: RationalExpression, ty: Type) -> (r: Option<
    RationalExpression,
>)
    ensures
        match r {
            Some(e) => product_step(acc@, operand@, ty) == Some(e@),
            None => product_step(acc@, operand@, ty) is None,
        },
{
    let rational = match ty {
        Type::Positive => operand,
        Type::Negative => match operand.invert() {
            Some(inverse) => inverse,
            None => {
                return None;
            },
        },
    };
    if rational.denom().len() > 1 {
        let x = match CanonicalTerm::multiply_terms(acc.numer(), rational.numer()) {
            Some(x) => x,
            None => {
                return None;
            },
        };
        let y = match CanonicalTerm::multiply_terms(acc.denom(), rational.denom()) {
            Some(y) => y,
            None => {
                return None;
            },
        };
        match RationalExpression::new(x, y) {
            Ok(e) => Some(e),
            Err(_) => None,
        }
    } else {
        let x = match CanonicalTerm::multiply_terms(acc.numer(), rational.numer()) {
            Some(x) => x,
            None => {
                return None;
            },
        };
        let divisor = &rational.denom()[0];
        assert(rational@.denom[0] == divisor@);
        let q = match CanonicalTerm::terms_divide_by_term(&x, divisor) {
            Some(q) => q,
            None => {
                return None;
            },
        };
        match RationalExpression::new(q, clone_terms(acc.denom())) {
            Ok(e) => Some(e),
            Err(_) => None,
        }
    }
}

impl RationalExpression {
    /// Lowers an expression to its canonical rational form.
    #[verifier::loop_isolation(false)]
    pub fn from_dim(dim: &Expr) -> (r: Option<RationalExpression>)
        ensures
            match r {
                Some(e) => lower(dim@) == Some(e@),
                None => lower(dim@) is None,
            },
        decreases dim,
    {
        proof {
            lemma_operands_view(*dim);
        }
        match dim {
            Expr::Constant(value) => {
                if *value > isize::MAX as usize {
                    None
                } else {
                    let mut numer: Vec<CanonicalTerm> = Vec::new();
                    numer.push(CanonicalTerm::new(*value as isize));
                    assert(numer.deep_view() =~= seq![TermModel::constant(*value as int)]);
                    Some(RationalExpression::whole(numer))
                }
            },
            Expr::Variable(name) => {
                let mut numer: Vec<CanonicalTerm> = Vec::new();
                numer.push(CanonicalTerm::with_var(1, name.clone()));
                assert(numer.deep_view() =~= seq![TermModel::variable(1, name@)]);
                Some(RationalExpression::whole(numer))
            },
            Expr::Sum(operands) => {
                let ghost ops = operands_view(operands@);
                let mut result = RationalExpression::new_zero();
                let mut i: usize = 0;
                while i < operands.len()
                    invariant
                        0 <= i <= operands.len(),
                        lower_sum(ops, i as nat) == Some(result@),
                    decreases operands.len() - i,
                {
                    let operand = &operands[i];
                    assert(ops[i as int] == operand@);
                    let step = match RationalExpression::from_dim(&operand.expr) {
                        Some(rational) => add_operand(&result, rational, operand.ty),
                        None => None,
                    };
                    match step {
                        Some(next) => {
                            result = next;
                        },
                        None => {
                            proof {
                                assert(lower_sum(ops, (i + 1) as nat) is None);
                                lemma_lower_sum_fails(ops, (i + 1) as nat, ops.len());
                            }
                            return None;
                        },
                    }
                    i += 1;
                }
                Some(result)
            },
            Expr::Product(operands) => {
                let ghost ops = operands_view(operands@);
                let mut result = RationalExpression::new_one();
                let mut i: usize = 0;
                while i < operands.len()
                    invariant
                        0 <= i <= operands.len(),
                        lower_product(ops, i as nat) == Some(result@),
                    decreases operands.len() - i,
                {
                    let operand = &operands[i];
                    assert(ops[i as int] == operand@);
                    let step = match RationalExpression::from_dim(&operand.expr) {
                        Some(rational) => multiply_operand(result, rational, operand.ty),
                        None => None,
                    };
                    match step {
                        Some(next) => {
                            result = next;
                        },
                        None => {
                            proof {
                                assert(lower_product(ops, (i + 1) as nat) is None);
                                lemma_lower_product_fails(ops, (i + 1) as nat, ops.len());
                            }
                            return None;
                        },
                    }
                    i += 1;
                }
                Some(result)
            },
            Expr::Rational(rational) => Some(rational.clone()),
        }
    }
}

} // verus!
