//! Arithmetic on expressions. A sum added to a sum gives one sum, and so for
//! products: nesting of the same kind is flattened.

use crate::expr::{
    Expr, ExprModel, lemma_operands_view, Operand, OperandModel, operands_view, reversed_operands,
};
use std::collections::VecDeque;
use vstd::prelude::*;

verus! {

/// The operands that an expression brings to a sum.
fn into_summands(e: Expr) -> (r: VecDeque<Operand>)
    ensures
        operands_view(r@) == e@.summands(),
{
    proof {
        lemma_operands_view(e);
    }
    match e {
        Expr::Sum(ops) => ops,
        other => {
            let mut d: VecDeque<Operand> = VecDeque::new();
            d.push_back(other.positive());
            assert(operands_view(d@) =~= seq![OperandModel::positive(e@)]);
            d
        },
    }
}

/// The operands that an expression brings to a product.
fn into_multiplicands(e: Expr) -> (r: VecDeque<Operand>)
    ensures
        operands_view(r@) == e@.multiplicands(),
{
    proof {
        lemma_operands_view(e);
    }
    match e {
        Expr::Product(ops) => ops,
        other => {
            let mut d: VecDeque<Operand> = VecDeque::new();
            d.push_back(other.positive());
            assert(operands_view(d@) =~= seq![OperandModel::positive(e@)]);
            d
        },
    }
}

/// The operands with every sign reversed.
fn reverse_signs(ops: VecDeque<Operand>) -> (r: VecDeque<Operand>)
    ensures
        operands_view(r@) == reversed_operands(operands_view(ops@)),
{
    let ghost all = operands_view(ops@);
    let mut rest = ops;
    let mut out: VecDeque<Operand> = VecDeque::new();
    while rest.len() > 0
        invariant
            out@.len() + rest@.len() == all.len(),
            operands_view(rest@) == all.skip(out@.len() as int),
            operands_view(out@) == reversed_operands(all).take(out@.len() as int),
        decreases rest@.len(),
    {
        let ghost before = operands_view(out@);
        let ghost k = out@.len() as int;
        let ghost pending = rest@;
        assert(operands_view(pending)[0] == all[k]);
        match rest.pop_front() {
            Some(op) => {
                let mut flipped = op;
                flipped.rev_assign();
                out.push_back(flipped);
                assert(operands_view(out@) =~= before.push(reversed_operands(all)[k]));
                assert(operands_view(out@) =~= reversed_operands(all).take(k + 1));
                assert forall|j: int| 0 <= j < rest@.len() implies operands_view(rest@)[j]
                    == all.skip(k + 1)[j] by {
                    assert(rest@[j] == pending[j + 1]);
                    assert(operands_view(pending)[j + 1] == all.skip(k)[j + 1]);
                }
                assert(operands_view(rest@) =~= all.skip(k + 1));
            },
            None => {},
        }
    }
    assert(reversed_operands(all).take(out@.len() as int) =~= reversed_operands(all));
    out
}

/// One list of operands after another.
fn join(a: VecDeque<Operand>, b: VecDeque<Operand>) -> (r: VecDeque<Operand>)
    ensures
        operands_view(r@) == operands_view(a@) + operands_view(b@),
{
    let mut front = a;
    let mut back = b;
    front.append(&mut back);
    assert(operands_view(front@) =~= operands_view(a@) + operands_view(b@));
    front
}

/// The sum of two expressions.
fn sum_of(lhs: Expr, rhs: Expr) -> (r: Expr)
    ensures
        r@ == lhs@.plus(rhs@),
{
    let r = Expr::Sum(join(into_summands(lhs), into_summands(rhs)));
    proof {
        lemma_operands_view(r);
    }
    r
}

/// The difference of two expressions.
fn difference_of(lhs: Expr, rhs: Expr) -> (r: Expr)
    ensures
        r@ == lhs@.minus(rhs@),
{
    let r = Expr::Sum(join(into_summands(lhs), reverse_signs(into_summands(rhs))));
    proof {
        lemma_operands_view(r);
    }
    r
}

/// The product of two expressions.
fn product_of(lhs: Expr, rhs: Expr) -> (r: Expr)
    ensures
        r@ == lhs@.times(rhs@),
{
    let r = Expr::Product(join(into_multiplicands(lhs), into_multiplicands(rhs)));
    proof {
        lemma_operands_view(r);
    }
    r
}

/// The quotient of two expressions.
fn quotient_of(lhs: Expr, rhs: Expr) -> (r: Expr)
    ensures
        r@ == lhs@.over(rhs@),
{
    let r = Expr::Product(join(into_multiplicands(lhs), reverse_signs(into_multiplicands(rhs))));
    proof {
        lemma_operands_view(r);
    }
    r
}

impl core::ops::Add for Expr {
    type Output = Expr;

    /// The sum, nested sums flattened.
    fn add(self, rhs: Expr) -> (r: Expr)
        ensures
            r@ == self@.plus(rhs@),
    {
        sum_of(self, rhs)
    }
}

impl vstd::std_specs::ops::AddSpecImpl for Expr {
    open spec fn obeys_add_spec() -> bool {
        false
    }

    open spec fn add_req(self, rhs: Expr) -> bool {
        true
    }

    open spec fn add_spec(self, rhs: Expr) -> Expr {
        self
    }
}

impl core::ops::Add<usize> for Expr {
    type Output = Expr;

    /// The sum, nested sums flattened.
    fn add(self, rhs: usize) -> (r: Expr)
        ensures
            r@ == self@.plus(ExprModel::Constant(rhs as nat)),
    {
        sum_of(self, Expr::Constant(rhs))
    }
}

impl vstd::std_specs::ops::AddSpecImpl<usize> for Expr {
    open spec fn obeys_add_spec() -> bool {
        false
    }

    open spec fn add_req(self, rhs: usize) -> bool {
        true
    }

    open spec fn add_spec(self, rhs: usize) -> Expr {
        self
    }
}

impl core::ops::Sub for Expr {
    type Output = Expr;

    /// The difference, nested sums flattened.
    fn sub(self, rhs: Expr) -> (r: Expr)
        ensures
            r@ == self@.minus(rhs@),
    {
        difference_of(self, rhs)
    }
}

impl vstd::std_specs::ops::SubSpecImpl for Expr {
    open spec fn obeys_sub_spec() -> bool {
        false
    }

    open spec fn sub_req(self, rhs: Expr) -> bool {
        true
    }

    open spec fn sub_spec(self, rhs: Expr) -> Expr {
        self
    }
}

impl core::ops::Sub<usize> for Expr {
    type Output = Expr;

    /// The difference, nested sums flattened.
    fn sub(self, rhs: usize) -> (r: Expr)
        ensures
            r@ == self@.minus(ExprModel::Constant(rhs as nat)),
    {
        difference_of(self, Expr::Constant(rhs))
    }
}

impl vstd::std_specs::ops::SubSpecImpl<usize> for Expr {
    open spec fn obeys_sub_spec() -> bool {
        false
    }

    open spec fn sub_req(self, rhs: usize) -> bool {
        true
    }

    open spec fn sub_spec(self, rhs: usize) -> Expr {
        self
    }
}

impl core::ops::Mul for Expr {
    type Output = Expr;

    /// The product, nested products flattened.
    fn mul(self, rhs: Expr) -> (r: Expr)
        ensures
            r@ == self@.times(rhs@),
    {
        product_of(self, rhs)
    }
}

impl vstd::std_specs::ops::MulSpecImpl for Expr {
    open spec fn obeys_mul_spec() -> bool {
        false
    }

    open spec fn mul_req(self, rhs: Expr) -> bool {
        true
    }

    open spec fn mul_spec(self, rhs: Expr) -> Expr {
        self
    }
}

impl core::ops::Mul<usize> for Expr {
    type Output = Expr;

    /// The product, nested products flattened.
    fn mul(self, rhs: usize) -> (r: Expr)
        ensures
            r@ == self@.times(ExprModel::Constant(rhs as nat)),
    {
        product_of(self, Expr::Constant(rhs))
    }
}

impl vstd::std_specs::ops::MulSpecImpl<usize> for Expr {
    open spec fn obeys_mul_spec() -> bool {
        false
    }

    open spec fn mul_req(self, rhs: usize) -> bool {
        true
    }

    open spec fn mul_spec(self, rhs: usize) -> Expr {
        self
    }
}

impl core::ops::Div for Expr {
    type Output = Expr;

    /// The quotient, nested products flattened.
    fn div(self, rhs: Expr) -> (r: Expr)
        ensures
            r@ == self@.over(rhs@),
    {
        quotient_of(self, rhs)
    }
}

impl vstd::std_specs::ops::DivSpecImpl for Expr {
    open spec fn obeys_div_spec() -> bool {
        false
    }

    open spec fn div_req(self, rhs: Expr) -> bool {
        true
    }

    open spec fn div_spec(self, rhs: Expr) -> Expr {
        self
    }
}

impl core::ops::Div<usize> for Expr {
    type Output = Expr;

    /// The quotient, nested products flattened.
    fn div(self, rhs: usize) -> (r: Expr)
        ensures
            r@ == self@.over(ExprModel::Constant(rhs as nat)),
    {
        quotient_of(self, Expr::Constant(rhs))
    }
}

impl vstd::std_specs::ops::DivSpecImpl<usize> for Expr {
    open spec fn obeys_div_spec() -> bool {
        false
    }

    open spec fn div_req(self, rhs: usize) -> bool {
        true
    }

    open spec fn div_spec(self, rhs: usize) -> Expr {
        self
    }
}

impl core::ops::Neg for Operand {
    type Output = Operand;

    /// The operand with its sign reversed.
    fn neg(self) -> (r: Operand)
        ensures
            r@ == (OperandModel { ty: self@.ty.reversed(), expr: self@.expr }),
    {
        Operand { ty: self.ty.rev(), expr: self.expr }
    }
}

impl vstd::std_specs::ops::NegSpecImpl for Operand {
    open spec fn obeys_neg_spec() -> bool {
        false
    }

    open spec fn neg_req(self) -> bool {
        true
    }

    open spec fn neg_spec(self) -> Operand {
        self
    }
}

impl From<usize> for Expr {
    fn from(value: usize) -> (r: Expr)
        ensures
            r@ == ExprModel::Constant(value as nat),
    {
        Expr::Constant(value)
    }
}

impl vstd::std_specs::convert::FromSpecImpl<usize> for Expr {
    open spec fn obeys_from_spec() -> bool {
        true
    }

    open spec fn from_spec(value: usize) -> Expr {
        Expr::Constant(value)
    }
}

impl From<&str> for Expr {
    fn from(value: &str) -> (r: Expr)
        ensures
            r@ == ExprModel::Variable(value@),
    {
        Expr::var(value)
    }
}

impl vstd::std_specs::convert::FromSpecImpl<&str> for Expr {
    open spec fn obeys_from_spec() -> bool {
        false
    }

    open spec fn from_spec(value: &str) -> Expr {
        Expr::Constant(0)
    }
}

impl From<String> for Expr {
    fn from(value: String) -> (r: Expr)
        ensures
            r@ == ExprModel::Variable(value@),
    {
        Expr::Variable(value)
    }
}

impl vstd::std_specs::convert::FromSpecImpl<String> for Expr {
    open spec fn obeys_from_spec() -> bool {
        true
    }

    open spec fn from_spec(value: String) -> Expr {
        Expr::Variable(value)
    }
}

} // verus!
