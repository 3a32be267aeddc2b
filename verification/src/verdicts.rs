//! When the equivalence test says yes.
//!
//! Two expressions are compared through the canonical form of their
//! difference. This module reads that form as a fraction of polynomials and
//! shows that the test answers yes whenever the two sides, read the same way,
//! agree crosswise: the numerator of each times the denominator of the other
//! is the same polynomial.

use crate::coefficients::{
    coef, lemma_collected_zero_is_empty, lemma_combined_coef, sem, sem_term, SemTerm,
    zero_polynomial,
};
use crate::equivalence::{equivalence, has_nonzero_constant, has_nonzero_variable_term, verdict};
use crate::expr::{ExprModel, OperandModel, reversed_operands, Type};
use crate::folds::{
    add_step, Form, join, lemma_add_step_coef, lemma_add_step_same_value, lemma_join_coef,
    lemma_same_fraction_chain, lemma_sum_append, lemma_sum_cancels, lemma_sum_reversed, mul_step,
    product_of_forms, reversed_forms, same_fraction, SemFraction, sum_of_forms,
};
use crate::lower::{lower, lower_sum};
use crate::lowering::{
    form_of, forms_of, lemma_forms_of_concat, lemma_forms_of_reversed, lemma_lower_product_meaning,
    lemma_lower_sum_meaning, lemma_lower_sum_valid, lemma_summands_valid, lemma_unit_form,
    lemma_zero_form, sem_fraction, unit_form, valid_expr, valid_operands, valid_rational, zero_form,
};
use crate::meaning::lemma_quotients_meaning;
use crate::proportion::{
    factor_out, is_unit_term, lemma_factor_scaled, lemma_scaled_itself, lemma_scaled_same,
    scaled_by,
};
use crate::rational::lemma_zero_value;
use crate::rational_expr::{RationalModel, simplified};
use crate::ring::{
    conv, lemma_conv_left, lemma_conv_negation, lemma_conv_right, lemma_conv_unit, lemma_conv_zero,
    lemma_over_term_coef, negation, over_term, unit, unshifted,
};
use crate::term::combined;
use crate::terms::{quotients, terms_quotient};
use vstd::prelude::*;

verus! {

/// The canonical form of the difference of `x` and `y` can be computed:
/// nothing overflows and no denominator comes out empty or zero.
pub open spec fn comparable(x: ExprModel, y: ExprModel) -> bool {
    lower(x.minus(y)) matches Some(r) && simplified(r) is Some
}

/// A difference whose numerator stands for zero is judged equal.
pub proof fn lemma_zero_numerator_verdict(r: RationalModel)
    requires
        valid_rational(r),
        zero_polynomial(sem(r.numer)),
        simplified(r) is Some,
    ensures
        verdict(simplified(r).unwrap().numer) == Some(true),
{
    let s = simplified(r).unwrap();
    if r.denom.len() == 1 {
        let t = r.denom[0];
        assert(t.coef.denom > 0);
        lemma_quotients_meaning(r.numer, t);
        let raw = quotients(r.numer, t).unwrap();
        let q = terms_quotient(r.numer, t).unwrap();
        assert forall|e: spec_fn(Seq<char>) -> int| #[trigger] coef(sem(q), e) == 0real by {
            lemma_combined_coef(raw, e);
            assert(coef(sem(raw), e) == coef(over_term(sem(r.numer), sem_term(t)), e));
            if r.numer.len() > 0 {
                lemma_zero_value(t.coef);
                lemma_over_term_coef(sem(r.numer), sem_term(t), e);
                assert(coef(sem(r.numer), unshifted(e, t.factors)) == 0real);
                assert(0real / sem_term(t).value == 0real) by (nonlinear_arith)
                    requires
                        sem_term(t).value != 0real,
                ;
            } else {
                assert(over_term(sem(r.numer), sem_term(t)).len() == 0);
            }
        }
        lemma_collected_zero_is_empty(q, raw);
        assert(s == RationalModel::zero());
        assert(s.numer[0].coef.numer == 0);
        assert(!has_nonzero_constant(s.numer));
        assert(!has_nonzero_variable_term(s.numer));
    } else {
        let n = combined(r.numer).unwrap();
        assert forall|e: spec_fn(Seq<char>) -> int| #[trigger] coef(sem(n), e) == 0real by {
            lemma_combined_coef(r.numer, e);
        }
        lemma_collected_zero_is_empty(n, r.numer);
        assert(s.numer.len() == 0);
        assert(!has_nonzero_constant(s.numer));
        assert(!has_nonzero_variable_term(s.numer));
    }
}

/// The fraction that an expression is lowered to.
pub open spec fn lowered(x: ExprModel) -> SemFraction {
    sem_fraction(lower(x).unwrap())
}

/// What an expression brings to a sum, added up: the sum of the fractions
/// that its summands are lowered to.
pub open spec fn as_sum(x: ExprModel) -> SemFraction {
    sum_of_forms(zero_form(), forms_of(x.summands()))
}

/// What an expression brings to a product, multiplied out: the product of
/// the fractions that its multiplicands are lowered to.
pub open spec fn as_product(x: ExprModel) -> SemFraction {
    product_of_forms(unit_form(), forms_of(x.multiplicands()))
}

/// The factor that a product takes out of an expression that enters it.
pub open spec fn factor_of(x: ExprModel) -> Seq<SemTerm> {
    if x is Product {
        unit()
    } else {
        factor_out(lowered(x))
    }
}

/// The numerator of the canonical form of a difference stands for the cross
/// difference of the two sides.
pub proof fn lemma_difference_numerator(x: ExprModel, y: ExprModel, e: spec_fn(Seq<char>) -> int)
    requires
        valid_expr(x),
        valid_expr(y),
        lower(x.minus(y)) is Some,
    ensures
        valid_rational(lower(x.minus(y)).unwrap()),
        coef(sem(lower(x.minus(y)).unwrap().numer), e) == conv(
            as_sum(x).numer,
            as_sum(y).denom,
            e,
        ) - conv(as_sum(y).numer, as_sum(x).denom, e),
        forall|i: int|
            0 <= i < x.summands().len() ==> lower((#[trigger] x.summands()[i]).expr) is Some
                && valid_rational(lower(x.summands()[i].expr).unwrap()),
        forall|i: int|
            0 <= i < y.summands().len() ==> lower((#[trigger] y.summands()[i]).expr) is Some
                && valid_rational(lower(y.summands()[i].expr).unwrap()),
{
    let sx = x.summands();
    let sy = y.summands();
    let list = sx + reversed_operands(sy);
    assert(x.minus(y) == ExprModel::Sum(list));
    let r = lower(x.minus(y)).unwrap();
    assert(r == lower_sum(list, list.len()).unwrap());
    lemma_summands_valid(x);
    lemma_summands_valid(y);
    assert(valid_operands(list)) by {
        assert forall|i: int| 0 <= i < list.len() implies valid_expr((#[trigger] list[i]).expr) by {
            if i < sx.len() {
                assert(list[i].expr == sx[i].expr);
            } else {
                assert(list[i].expr == sy[i - sx.len()].expr);
            }
        }
    }
    lemma_zero_form();
    let z = zero_form();
    lemma_lower_sum_valid(list, list.len());
    assert forall|i: int| 0 <= i < sx.len() implies lower((#[trigger] sx[i]).expr) is Some
        && valid_rational(lower(sx[i].expr).unwrap()) by {
        assert(list[i].expr == sx[i].expr);
    }
    assert forall|i: int| 0 <= i < sy.len() implies lower((#[trigger] sy[i]).expr) is Some
        && valid_rational(lower(sy[i].expr).unwrap()) by {
        assert(list[i + sx.len()].expr == sy[i].expr);
    }
    let fx = forms_of(sx);
    let fy = forms_of(sy);
    lemma_forms_of_reversed(sy);
    lemma_forms_of_concat(sx, reversed_operands(sy));
    assert(forms_of(list).take(list.len() as int) =~= fx + reversed_forms(fy));
    lemma_lower_sum_meaning(list, list.len());
    lemma_sum_append(z, fx, reversed_forms(fy));
    lemma_sum_reversed(z, fy);
    let vx = sum_of_forms(z, fx);
    let vy = sum_of_forms(z, fy);
    let ry = sum_of_forms(z, reversed_forms(fy));
    lemma_join_coef(vx, ry, e);
    assert(coef(sem_fraction(r).numer, e) == coef(
        sum_of_forms(z, fx + reversed_forms(fy)).numer,
        e,
    ));
    assert(coef(sum_of_forms(z, fx + reversed_forms(fy)).numer, e) == coef(join(vx, ry).numer, e));
    lemma_conv_right(vx.numer, ry.denom, vy.denom, e);
    lemma_conv_left(ry.numer, negation(vy.numer), vx.denom, e);
    lemma_conv_negation(vy.numer, vx.denom, e);
}

/// Two expressions whose values agree crosswise, numerator of the one
/// times denominator of the other, are equivalent wherever the canonical
/// form of their difference can be computed.
pub proof fn lemma_cross_equivalent(x: ExprModel, y: ExprModel)
    requires
        valid_expr(x),
        valid_expr(y),
        comparable(x, y),
        forall|e: spec_fn(Seq<char>) -> int| #[trigger]
            conv(as_sum(x).numer, as_sum(y).denom, e) == conv(
                as_sum(y).numer,
                as_sum(x).denom,
                e,
            ),
    ensures
        equivalence(x, y) == Some(true),
{
    let r = lower(x.minus(y)).unwrap();
    assert forall|e: spec_fn(Seq<char>) -> int| #[trigger] coef(sem(r.numer), e) == 0real by {
        lemma_difference_numerator(x, y, e);
        assert(conv(as_sum(x).numer, as_sum(y).denom, e) == conv(
            as_sum(y).numer,
            as_sum(x).denom,
            e,
        ));
    }
    lemma_difference_numerator(x, y, |v: Seq<char>| 0int);
    lemma_zero_numerator_verdict(r);
}

/// What an expression brings to a sum is the fraction that it is lowered
/// to.
pub proof fn lemma_as_sum_lowered(x: ExprModel)
    requires
        valid_expr(x),
        lower(x) is Some,
    ensures
        same_fraction(as_sum(x), lowered(x)),
        same_fraction(lowered(x), as_sum(x)),
{
    lemma_zero_form();
    let z = zero_form();
    let l = lowered(x);
    match x {
        ExprModel::Sum(ops) => {
            lemma_lower_sum_meaning(ops, ops.len());
            assert(forms_of(ops).take(ops.len() as int) =~= forms_of(ops));
        },
        _ => {
            let fs = forms_of(x.summands());
            assert(fs.drop_last() =~= Seq::<Form>::empty());
            assert(fs.last() == Form { ty: Type::Positive, value: l });
            assert(sum_of_forms(z, fs.drop_last()) == z);
            assert(as_sum(x) == add_step(z, l, Type::Positive));
            assert forall|e: spec_fn(Seq<char>) -> int| #[trigger]
                coef(as_sum(x).numer, e) == coef(l.numer, e) by {
                lemma_add_step_coef(z, l, Type::Positive, e);
                lemma_conv_zero(z.numer, l.denom, e);
                lemma_conv_right(l.numer, z.denom, unit(), e);
                lemma_conv_unit(l.numer, e);
            }
            assert forall|e: spec_fn(Seq<char>) -> int| #[trigger]
                coef(as_sum(x).denom, e) == coef(l.denom, e) by {
                lemma_add_step_coef(z, l, Type::Positive, e);
                lemma_conv_left(z.denom, unit(), l.denom, e);
                lemma_conv_unit(l.denom, e);
            }
        },
    }
    lemma_same_fraction_chain(as_sum(x), l, as_sum(x));
}

/// Two expressions that are lowered to the same fraction are equivalent,
/// wherever the canonical form of their difference can be computed and
/// neither is a sum.
pub proof fn lemma_same_fraction_equivalent(x: ExprModel, y: ExprModel)
    requires
        valid_expr(x),
        valid_expr(y),
        !(x is Sum),
        !(y is Sum),
        comparable(x, y),
        lower(x) is Some && lower(y) is Some ==> same_fraction(
            sem_fraction(lower(x).unwrap()),
            sem_fraction(lower(y).unwrap()),
        ),
    ensures
        equivalence(x, y) == Some(true),
{
    let list = x.summands() + reversed_operands(y.summands());
    assert(x.minus(y) == ExprModel::Sum(list));
    let r = lower(x.minus(y)).unwrap();
    assert(r == lower_sum(list, list.len()).unwrap());
    assert(list[0].expr == x);
    assert(list[1].expr == y);
    assert(valid_operands(list));
    lemma_zero_form();
    let z = zero_form();
    lemma_lower_sum_valid(list, list.len());
    assert(lower(list[0].expr) is Some);
    assert(lower(list[1].expr) is Some);
    let fx = seq![form_of(OperandModel::positive(x))];
    let fy = seq![form_of(OperandModel::positive(y))];
    assert(forms_of(list) =~= fx + reversed_forms(fy));
    assert(forms_of(list).take(list.len() as int) =~= forms_of(list));
    lemma_lower_sum_meaning(list, list.len());
    assert(same_fraction(sum_of_forms(z, fx), sum_of_forms(z, fy))) by {
        assert(fx.drop_last() =~= Seq::<Form>::empty());
        assert(fy.drop_last() =~= Seq::<Form>::empty());
        assert(sum_of_forms(z, fx.drop_last()) == z);
        assert(sum_of_forms(z, fy.drop_last()) == z);
        lemma_add_step_same_value(z, fx[0].value, fy[0].value, Type::Positive);
    }
    lemma_sum_cancels(z, fx, fy);
    assert forall|e: spec_fn(Seq<char>) -> int| #[trigger] coef(sem(r.numer), e) == 0real by {
        assert(coef(sem_fraction(r).numer, e) == coef(
            sum_of_forms(z, forms_of(list)).numer,
            e,
        ));
    }
    lemma_zero_numerator_verdict(r);
}

/// What an expression brings to a product is the fraction that it is
/// lowered to with [`factor_of`] taken out.
pub proof fn lemma_as_product_scaled(x: ExprModel)
    requires
        valid_expr(x),
        lower(x) is Some,
        x is Product || !zero_polynomial(lowered(x).denom),
    ensures
        is_unit_term(factor_of(x)),
        scaled_by(as_product(x), lowered(x), factor_of(x)),
{
    lemma_unit_form();
    let u = unit_form();
    let l = lowered(x);
    match x {
        ExprModel::Product(ops) => {
            lemma_lower_product_meaning(ops, ops.len());
            assert(forms_of(ops).take(ops.len() as int) =~= forms_of(ops));
            lemma_scaled_itself(l);
            lemma_same_fraction_chain(l, as_product(x), l);
            lemma_scaled_same(as_product(x), l, l, l, unit());
        },
        _ => {
            let fs = forms_of(x.multiplicands());
            assert(fs.drop_last() =~= Seq::<Form>::empty());
            assert(fs.last() == Form { ty: Type::Positive, value: l });
            assert(product_of_forms(u, fs.drop_last()) == u);
            assert(as_product(x) == mul_step(u, Form { ty: Type::Positive, value: l }));
            lemma_factor_scaled(u, l);
        },
    }
}

} // verus!
