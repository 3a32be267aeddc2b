//! What lowering means: the canonical form of a sum stands for the sum of
//! the fractions that its operands are lowered to.

use crate::coefficients::{
    coef, has_exponents, lemma_coef_concat, lemma_coef_single, lemma_collected_zero_is_empty,
    positive_denominators, sem, sem_term, zero_polynomial,
};
use crate::expr::{ExprModel, OperandModel, reversed_operands, Type};
use crate::factor::{exponent_of, FactorModel};
use crate::folds::{
    add_step, entering_denom, entering_numer, Form, is_unit_fraction, is_zero_fraction,
    lemma_add_step_same, lemma_mul_step_same, mul_step, product_of_forms, reversed_forms,
    same_fraction, SemFraction, signed, sum_of_forms,
};
use crate::lower::{lower, lower_product, lower_sum, product_step, sum_step};
use crate::meaning::{
    lemma_negated_meaning, lemma_product_meaning, lemma_products_meaning, lemma_quotient_meaning,
    lemma_quotients_meaning, lemma_sum_meaning,
};
use crate::rational::{Fraction, lemma_zero_value};
use crate::rational_expr::{negated, RationalModel};
use crate::ring::{
    lemma_conv_zero, lemma_over_term_coef, lemma_times_coef, over_term, times, unit, unshifted,
};
use crate::term::combined;
use crate::terms::{products, quotients, terms_product};
use vstd::prelude::*;

verus! {

/// Every coefficient of the fraction has a positive denominator.
pub open spec fn valid_rational(r: RationalModel) -> bool {
    positive_denominators(r.numer) && positive_denominators(r.denom)
}

/// Every coefficient in every leaf of the expression has a positive
/// denominator, as every coefficient that the library builds has.
pub open spec fn valid_expr(e: ExprModel) -> bool
    decreases e,
{
    match e {
        ExprModel::Constant(_) => true,
        ExprModel::Variable(_) => true,
        ExprModel::Sum(ops) => forall|i: int|
            0 <= i < ops.len() ==> valid_expr((#[trigger] ops[i]).expr),
        ExprModel::Product(ops) => forall|i: int|
            0 <= i < ops.len() ==> valid_expr((#[trigger] ops[i]).expr),
        ExprModel::Rational(r) => valid_rational(r),
    }
}

/// Every operand is a valid expression.
pub open spec fn valid_operands(ops: Seq<OperandModel>) -> bool {
    forall|i: int| 0 <= i < ops.len() ==> valid_expr((#[trigger] ops[i]).expr)
}

/// A canonical form with its coefficients read as real numbers.
pub open spec fn sem_fraction(r: RationalModel) -> SemFraction {
    SemFraction { numer: sem(r.numer), denom: sem(r.denom) }
}

/// What an operand brings to a sum or a product: its sign and the fraction
/// that it is lowered to.
pub open spec fn form_of(op: OperandModel) -> Form {
    Form { ty: op.ty, value: sem_fraction(lower(op.expr).unwrap()) }
}

/// What the operands bring to a sum or a product.
pub open spec fn forms_of(ops: Seq<OperandModel>) -> Seq<Form> {
    Seq::new(ops.len(), |i: int| form_of(ops[i]))
}

/// Zero over one, where every sum starts.
pub open spec fn zero_form() -> SemFraction {
    sem_fraction(RationalModel::zero())
}

/// Zero over one stands for zero over one.
pub proof fn lemma_zero_form()
    ensures
        is_zero_fraction(zero_form()),
        valid_rational(RationalModel::zero()),
        valid_rational(RationalModel::one()),
{
    reveal_with_fuel(coef, 2);
    let z = zero_form();
    assert((1int as real) / (1int as real) == 1real) by (nonlinear_arith);
    assert((0int as real) / (1int as real) == 0real) by (nonlinear_arith);
    assert(Fraction::from_int(1).value() == 1real);
    assert(Fraction::from_int(0).value() == 0real);
    assert(z.denom[0].value == 1real);
    assert(z.denom[0].factors =~= Seq::<FactorModel>::empty());
    assert(z.denom =~= unit());
    assert forall|e: spec_fn(Seq<char>) -> int| #[trigger] coef(z.numer, e) == 0real by {
        assert(z.numer.drop_last().len() == 0);
        assert(z.numer.last().value == 0real);
    }
}

/// One step of a sum on canonical forms stands for the step on the
/// fractions.
pub proof fn lemma_sum_step_meaning(acc: RationalModel, r: RationalModel, ty: Type)
    requires
        valid_rational(acc),
        valid_rational(r),
        sum_step(acc, r, ty) is Some,
    ensures
        valid_rational(sum_step(acc, r, ty).unwrap()),
        same_fraction(
            sem_fraction(sum_step(acc, r, ty).unwrap()),
            add_step(sem_fraction(acc), sem_fraction(r), ty),
        ),
{
    let out = sum_step(acc, r, ty).unwrap();
    let n = match ty {
        Type::Positive => r.numer,
        Type::Negative => negated(r.numer).unwrap(),
    };
    match ty {
        Type::Positive => {},
        Type::Negative => {
            lemma_negated_meaning(r.numer);
        },
    }
    assert(sem(n) == signed(sem(r.numer), ty));
    let x = terms_product(acc.numer, r.denom).unwrap();
    let y = terms_product(n, acc.denom).unwrap();
    let d = terms_product(acc.denom, r.denom).unwrap();
    lemma_product_meaning(acc.numer, r.denom);
    lemma_product_meaning(n, acc.denom);
    lemma_product_meaning(acc.denom, r.denom);
    lemma_sum_meaning(x, y);
    let want = add_step(sem_fraction(acc), sem_fraction(r), ty);
    assert forall|e: spec_fn(Seq<char>) -> int| #[trigger]
        coef(sem(out.numer), e) == coef(want.numer, e) by {
        lemma_coef_concat(sem(x), sem(y), e);
        lemma_coef_concat(
            times(sem(acc.numer), sem(r.denom)),
            times(signed(sem(r.numer), ty), sem(acc.denom)),
            e,
        );
        assert(coef(sem(out.numer), e) == coef(sem(x) + sem(y), e));
        assert(coef(sem(x), e) == coef(times(sem(acc.numer), sem(r.denom)), e));
        assert(coef(sem(y), e) == coef(times(sem(n), sem(acc.denom)), e));
    }
}

/// One step of a product on canonical forms keeps the coefficients valid.
pub proof fn lemma_product_step_valid(acc: RationalModel, r: RationalModel, ty: Type)
    requires
        valid_rational(acc),
        valid_rational(r),
        product_step(acc, r, ty) is Some,
    ensures
        valid_rational(product_step(acc, r, ty).unwrap()),
{
    let n = match ty {
        Type::Positive => r.numer,
        Type::Negative => r.denom,
    };
    let d = match ty {
        Type::Positive => r.denom,
        Type::Negative => r.numer,
    };
    lemma_product_meaning(acc.numer, n);
    if d.len() > 1 {
        lemma_product_meaning(acc.denom, d);
    } else {
        assert(d[0].coef.denom > 0);
        lemma_quotient_meaning(terms_product(acc.numer, n).unwrap(), d[0]);
    }
}

/// The canonical form of a valid expression has valid coefficients.
pub proof fn lemma_lower_valid(e: ExprModel)
    requires
        valid_expr(e),
        lower(e) is Some,
    ensures
        valid_rational(lower(e).unwrap()),
    decreases e, 0nat,
{
    match e {
        ExprModel::Constant(c) => {
            let r = lower(e).unwrap();
            assert(r.numer[0].coef.denom == 1);
            assert(r.denom[0].coef.denom == 1);
        },
        ExprModel::Variable(v) => {
            let r = lower(e).unwrap();
            assert(r.numer[0].coef.denom == 1);
            assert(r.denom[0].coef.denom == 1);
        },
        ExprModel::Sum(ops) => {
            lemma_lower_sum_valid(ops, ops.len());
        },
        ExprModel::Product(ops) => {
            lemma_lower_product_valid(ops, ops.len());
        },
        ExprModel::Rational(r) => {},
    }
}

/// The canonical form of a sum of valid operands has valid coefficients,
/// and every operand has a canonical form.
pub proof fn lemma_lower_sum_valid(ops: Seq<OperandModel>, n: nat)
    requires
        valid_operands(ops),
        n <= ops.len(),
        lower_sum(ops, n) is Some,
    ensures
        valid_rational(lower_sum(ops, n).unwrap()),
        forall|i: int|
            0 <= i < n ==> lower((#[trigger] ops[i]).expr) is Some && valid_rational(
                lower(ops[i].expr).unwrap(),
            ),
    decreases ops, n,
{
    lemma_zero_form();
    if n > 0 {
        lemma_lower_sum_valid(ops, (n - 1) as nat);
        assert(valid_expr(ops[n - 1].expr));
        lemma_lower_valid(ops[n - 1].expr);
        lemma_sum_step_meaning(
            lower_sum(ops, (n - 1) as nat).unwrap(),
            lower(ops[n - 1].expr).unwrap(),
            ops[n - 1].ty,
        );
    }
}

/// The canonical form of a product of valid operands has valid
/// coefficients, and every operand has a canonical form.
pub proof fn lemma_lower_product_valid(ops: Seq<OperandModel>, n: nat)
    requires
        valid_operands(ops),
        n <= ops.len(),
        lower_product(ops, n) is Some,
    ensures
        valid_rational(lower_product(ops, n).unwrap()),
        forall|i: int|
            0 <= i < n ==> lower((#[trigger] ops[i]).expr) is Some && valid_rational(
                lower(ops[i].expr).unwrap(),
            ),
    decreases ops, n,
{
    lemma_zero_form();
    if n > 0 {
        lemma_lower_product_valid(ops, (n - 1) as nat);
        assert(valid_expr(ops[n - 1].expr));
        lemma_lower_valid(ops[n - 1].expr);
        lemma_product_step_valid(
            lower_product(ops, (n - 1) as nat).unwrap(),
            lower(ops[n - 1].expr).unwrap(),
            ops[n - 1].ty,
        );
    }
}

/// The canonical form of a sum stands for the sum of the fractions that
/// its operands are lowered to.
pub proof fn lemma_lower_sum_meaning(ops: Seq<OperandModel>, n: nat)
    requires
        valid_operands(ops),
        n <= ops.len(),
        lower_sum(ops, n) is Some,
    ensures
        same_fraction(
            sem_fraction(lower_sum(ops, n).unwrap()),
            sum_of_forms(zero_form(), forms_of(ops).take(n as int)),
        ),
    decreases n,
{
    let fs = forms_of(ops).take(n as int);
    if n > 0 {
        let before = lower_sum(ops, (n - 1) as nat).unwrap();
        let r = lower(ops[n - 1].expr).unwrap();
        lemma_lower_sum_meaning(ops, (n - 1) as nat);
        lemma_lower_sum_valid(ops, n);
        lemma_lower_sum_valid(ops, (n - 1) as nat);
        lemma_sum_step_meaning(before, r, ops[n - 1].ty);
        assert(fs.drop_last() =~= forms_of(ops).take(n - 1));
        assert(fs.last() == form_of(ops[n - 1]));
        lemma_add_step_same(
            sem_fraction(before),
            sum_of_forms(zero_form(), fs.drop_last()),
            sem_fraction(r),
            ops[n - 1].ty,
        );
        let got = sem_fraction(lower_sum(ops, n).unwrap());
        let mid = add_step(sem_fraction(before), sem_fraction(r), ops[n - 1].ty);
        let want = sum_of_forms(zero_form(), fs);
        assert forall|e: spec_fn(Seq<char>) -> int| #[trigger]
            coef(got.numer, e) == coef(want.numer, e) by {
            assert(coef(got.numer, e) == coef(mid.numer, e));
        }
        assert forall|e: spec_fn(Seq<char>) -> int| #[trigger]
            coef(got.denom, e) == coef(want.denom, e) by {
            assert(coef(got.denom, e) == coef(mid.denom, e));
        }
    } else {
        assert(fs.len() == 0);
    }
}

/// One over one, where every product starts.
pub open spec fn unit_form() -> SemFraction {
    sem_fraction(RationalModel::one())
}

/// One over one stands for one over one.
pub proof fn lemma_unit_form()
    ensures
        is_unit_fraction(unit_form()),
{
    let u = unit_form();
    assert((1int as real) / (1int as real) == 1real) by (nonlinear_arith);
    assert(Fraction::from_int(1).value() == 1real);
    assert(u.denom[0].value == 1real);
    assert(u.numer[0].value == 1real);
    assert(u.denom[0].factors =~= Seq::<FactorModel>::empty());
    assert(u.numer[0].factors =~= Seq::<FactorModel>::empty());
    assert(u.denom =~= unit());
    assert(u.numer =~= unit());
}

/// One step of a product on canonical forms stands for the step on the
/// fractions.
pub proof fn lemma_product_step_meaning(acc: RationalModel, r: RationalModel, ty: Type)
    requires
        valid_rational(acc),
        valid_rational(r),
        product_step(acc, r, ty) is Some,
    ensures
        same_fraction(
            sem_fraction(product_step(acc, r, ty).unwrap()),
            mul_step(sem_fraction(acc), Form { ty, value: sem_fraction(r) }),
        ),
{
    let out = product_step(acc, r, ty).unwrap();
    let form = Form { ty, value: sem_fraction(r) };
    let n = match ty {
        Type::Positive => r.numer,
        Type::Negative => r.denom,
    };
    let d = match ty {
        Type::Positive => r.denom,
        Type::Negative => r.numer,
    };
    assert(entering_numer(form) == sem(n));
    assert(entering_denom(form) == sem(d));
    assert(sem(d).len() == d.len());
    lemma_product_meaning(acc.numer, n);
    let want = mul_step(sem_fraction(acc), form);
    if d.len() > 1 {
        lemma_product_meaning(acc.denom, d);
    } else {
        let t = d[0];
        assert(t.coef.denom > 0);
        assert(sem(d)[0] == sem_term(t));
        let x = terms_product(acc.numer, n).unwrap();
        lemma_quotients_meaning(x, t);
        lemma_quotient_meaning(x, t);
        lemma_zero_value(t.coef);
        let raw = quotients(x, t).unwrap();
        assert forall|e: spec_fn(Seq<char>) -> int| #[trigger]
            coef(sem(out.numer), e) == coef(want.numer, e) by {
            let full = times(sem(acc.numer), sem(n));
            if sem_term(t).value != 0real {
                lemma_over_term_coef(sem(x), sem_term(t), e);
                lemma_over_term_coef(full, sem_term(t), e);
                assert(coef(sem(x), unshifted(e, t.factors)) == coef(
                    full,
                    unshifted(e, t.factors),
                ));
                assert(coef(sem(out.numer), e) == coef(over_term(sem(x), sem_term(t)), e));
            } else {
                assert(x.len() == 0);
                assert(over_term(sem(x), sem_term(t)).len() == 0);
                assert(coef(sem(out.numer), e) == coef(over_term(sem(x), sem_term(t)), e));
            }
        }
    }
}

/// The canonical form of a product stands for the product of the fractions
/// that its operands are lowered to.
pub proof fn lemma_lower_product_meaning(ops: Seq<OperandModel>, n: nat)
    requires
        valid_operands(ops),
        n <= ops.len(),
        lower_product(ops, n) is Some,
    ensures
        same_fraction(
            sem_fraction(lower_product(ops, n).unwrap()),
            product_of_forms(unit_form(), forms_of(ops).take(n as int)),
        ),
    decreases n,
{
    let fs = forms_of(ops).take(n as int);
    if n > 0 {
        let before = lower_product(ops, (n - 1) as nat).unwrap();
        let r = lower(ops[n - 1].expr).unwrap();
        lemma_lower_product_meaning(ops, (n - 1) as nat);
        lemma_lower_product_valid(ops, n);
        lemma_lower_product_valid(ops, (n - 1) as nat);
        lemma_product_step_meaning(before, r, ops[n - 1].ty);
        assert(fs.drop_last() =~= forms_of(ops).take(n - 1));
        assert(fs.last() == form_of(ops[n - 1]));
        lemma_mul_step_same(
            sem_fraction(before),
            product_of_forms(unit_form(), fs.drop_last()),
            fs.last(),
        );
        let got = sem_fraction(lower_product(ops, n).unwrap());
        let mid = mul_step(sem_fraction(before), fs.last());
        let want = product_of_forms(unit_form(), fs);
        assert forall|e: spec_fn(Seq<char>) -> int| #[trigger]
            coef(got.numer, e) == coef(want.numer, e) by {
            assert(coef(got.numer, e) == coef(mid.numer, e));
        }
        assert forall|e: spec_fn(Seq<char>) -> int| #[trigger]
            coef(got.denom, e) == coef(want.denom, e) by {
            assert(coef(got.denom, e) == coef(mid.denom, e));
        }
    } else {
        assert(fs.len() == 0);
    }
}

/// The denominator of the canonical form of a sum is not zero.
pub proof fn lemma_lowered_sum_denominator(ops: Seq<OperandModel>, n: nat)
    requires
        valid_operands(ops),
        n <= ops.len(),
        lower_sum(ops, n) is Some,
    ensures
        !zero_polynomial(sem(lower_sum(ops, n).unwrap().denom)),
{
    let out = lower_sum(ops, n).unwrap();
    if zero_polynomial(sem(out.denom)) {
        if n == 0 {
            lemma_zero_form();
            let none = |v: Seq<char>| 0int;
            assert(coef(zero_form().denom, none) == coef(unit(), none));
            lemma_coef_single(unit()[0], none);
            assert(unit() =~= seq![unit()[0]]);
            assert(has_exponents(unit()[0].factors, none)) by {
                assert forall|v: Seq<char>| none(v) == #[trigger] exponent_of(
                    unit()[0].factors,
                    v,
                ) by {}
            }
            assert(coef(sem(out.denom), none) == 0real);
        } else {
            let acc = lower_sum(ops, (n - 1) as nat).unwrap();
            let r = lower(ops[n - 1].expr).unwrap();
            lemma_lower_sum_valid(ops, n);
            lemma_lower_sum_valid(ops, (n - 1) as nat);
            assert(out == sum_step(acc, r, ops[n - 1].ty).unwrap());
            let raw = products(acc.denom, r.denom).unwrap();
            lemma_products_meaning(acc.denom, r.denom);
            assert(out.denom == combined(raw).unwrap());
            lemma_collected_zero_is_empty(out.denom, raw);
        }
    }
}

/// The denominator of what each operand of a sum is lowered to is not
/// zero, where the sum has a canonical form.
pub proof fn lemma_summand_denominator(ops: Seq<OperandModel>, n: nat, i: int)
    requires
        valid_operands(ops),
        n <= ops.len(),
        0 <= i < n,
        lower_sum(ops, n) is Some,
    ensures
        lower(ops[i].expr) is Some,
        !zero_polynomial(sem(lower(ops[i].expr).unwrap().denom)),
    decreases n,
{
    lemma_lower_sum_valid(ops, n);
    if i < n - 1 {
        lemma_summand_denominator(ops, (n - 1) as nat, i);
    } else {
        let acc = lower_sum(ops, (n - 1) as nat).unwrap();
        let r = lower(ops[n - 1].expr).unwrap();
        let out = lower_sum(ops, n).unwrap();
        lemma_lower_sum_valid(ops, (n - 1) as nat);
        assert(out == sum_step(acc, r, ops[n - 1].ty).unwrap());
        lemma_lowered_sum_denominator(ops, n);
        if zero_polynomial(sem(r.denom)) {
            lemma_product_meaning(acc.denom, r.denom);
            assert forall|e: spec_fn(Seq<char>) -> int| #[trigger]
                coef(sem(out.denom), e) == 0real by {
                assert(coef(sem(out.denom), e) == coef(times(sem(acc.denom), sem(r.denom)), e));
                lemma_times_coef(sem(acc.denom), sem(r.denom), e);
                lemma_conv_zero(sem(r.denom), sem(acc.denom), e);
            }
        }
    }
}

/// The operands that a valid expression brings to a sum are valid.
pub proof fn lemma_summands_valid(a: ExprModel)
    requires
        valid_expr(a),
    ensures
        valid_operands(a.summands()),
{
    match a {
        ExprModel::Sum(ops) => {},
        _ => {
            assert(a.summands()[0].expr == a);
        },
    }
}

/// The operands that a valid expression brings to a product are valid.
pub proof fn lemma_multiplicands_valid(a: ExprModel)
    requires
        valid_expr(a),
    ensures
        valid_operands(a.multiplicands()),
{
    match a {
        ExprModel::Product(ops) => {},
        _ => {
            assert(a.multiplicands()[0].expr == a);
        },
    }
}

/// The sum of two valid expressions is valid.
pub proof fn lemma_plus_valid(a: ExprModel, b: ExprModel)
    requires
        valid_expr(a),
        valid_expr(b),
    ensures
        valid_expr(a.plus(b)),
{
    let sa = a.summands();
    let sb = b.summands();
    lemma_summands_valid(a);
    lemma_summands_valid(b);
    assert forall|i: int| 0 <= i < (sa + sb).len() implies valid_expr(
        (#[trigger] (sa + sb)[i]).expr,
    ) by {
        if i < sa.len() {
            assert((sa + sb)[i].expr == sa[i].expr);
        } else {
            assert((sa + sb)[i].expr == sb[i - sa.len()].expr);
        }
    }
}

/// The product of two valid expressions is valid.
pub proof fn lemma_times_valid(a: ExprModel, b: ExprModel)
    requires
        valid_expr(a),
        valid_expr(b),
    ensures
        valid_expr(a.times(b)),
{
    let ma = a.multiplicands();
    let mb = b.multiplicands();
    lemma_multiplicands_valid(a);
    lemma_multiplicands_valid(b);
    assert forall|i: int| 0 <= i < (ma + mb).len() implies valid_expr(
        (#[trigger] (ma + mb)[i]).expr,
    ) by {
        if i < ma.len() {
            assert((ma + mb)[i].expr == ma[i].expr);
        } else {
            assert((ma + mb)[i].expr == mb[i - ma.len()].expr);
        }
    }
}

/// Reversing the signs of the operands reverses the signs of their forms.
pub proof fn lemma_forms_of_reversed(ops: Seq<OperandModel>)
    ensures
        forms_of(reversed_operands(ops)) == reversed_forms(forms_of(ops)),
{
    assert(forms_of(reversed_operands(ops)) =~= reversed_forms(forms_of(ops)));
}

/// The forms of two lists of operands, one after the other.
pub proof fn lemma_forms_of_concat(a: Seq<OperandModel>, b: Seq<OperandModel>)
    ensures
        forms_of(a + b) == forms_of(a) + forms_of(b),
{
    assert(forms_of(a + b) =~= forms_of(a) + forms_of(b));
}

} // verus!
