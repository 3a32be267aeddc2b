//! Laws of the library, stated over the mathematical views and proved.
//!
//! The laws of equivalence speak of expressions as the operators build them:
//! [`ExprModel::plus`], [`ExprModel::times`] and [`ExprModel::over`] are the
//! views of `+`, `*` and `/`. Each asks two things of its expressions. They
//! are valid: every coefficient in a leaf has a positive denominator, as
//! every [`crate::Rational`] has. And the two sides are comparable: the
//! canonical form of their difference can be computed. Where it cannot, for
//! a constant too large for a machine integer or a product that overflows,
//! the test has no answer and no law can hold.

use crate::coefficients::{coef, sem, sem_term, zero_polynomial};
use crate::equivalence::{equivalence, lifted};
use crate::expr::{ExprModel, OperandModel, reversed_operands, Type};
use crate::factor::{exponents_fit, FactorModel, normal_form};
use crate::folds::{
    cross, Form, join, lemma_cross_same, lemma_pair_is_unit, lemma_product_append,
    lemma_product_swap, lemma_product_without_pair, lemma_same_fraction_chain, lemma_sum_append,
    lemma_sum_cancels, lemma_sum_swap, product_of_forms, reversed_forms, sum_of_forms,
};
use crate::lower::{lower, lower_sum};
use crate::lowering::{
    form_of, forms_of, lemma_forms_of_concat, lemma_forms_of_reversed, lemma_lower_product_meaning,
    lemma_lower_product_valid, lemma_lower_sum_meaning, lemma_lower_sum_valid,
    lemma_lowered_sum_denominator, lemma_multiplicands_valid, lemma_plus_valid,
    lemma_summand_denominator, lemma_summands_valid, lemma_times_valid, lemma_unit_form,
    lemma_zero_form, sem_fraction, unit_form, valid_expr, valid_operands, zero_form,
};
use crate::proportion::{
    lemma_join_same, lemma_ratio_distributes, lemma_ratio_of_scaled, lemma_scaled_cross,
    lemma_scaled_itself, lemma_scaled_join, lemma_scaled_same, lemma_unit_terms_multiply,
};
use crate::rational_expr::{RationalModel, simplified};
use crate::ring::{conv, lemma_times_coef, times, unit};
use crate::term::{
    combinable, combined, group_sum, GroupSum, is_combined, lemma_combined_is, TermModel,
};
use crate::terms::{lemma_collected_is_normal, lemma_group_of_collected};
use crate::verdicts::{
    as_product, as_sum, comparable, factor_of, lemma_as_product_scaled, lemma_as_sum_lowered,
    lemma_cross_equivalent, lemma_difference_numerator, lemma_same_fraction_equivalent,
    lemma_zero_numerator_verdict, lowered,
};
use vstd::prelude::*;

verus! {

/// Collecting like terms a second time changes nothing.
pub proof fn law_combine_idempotent(terms: Seq<TermModel>)
    ensures
        combined(terms) matches Some(r) ==> combined(r) == Some(r),
{
    if let Some(r) = combined(terms) {
        assert(is_combined(r, terms));
        assert forall|i: int| 0 <= i < r.len() implies normal_form(#[trigger] r[i].factors) == Some(
            r[i].factors,
        ) && exponents_fit(r[i].factors) by {
            lemma_collected_is_normal(r, terms, i);
        }
        assert(r.take(r.len() as int) =~= r);
        assert forall|m: Seq<FactorModel>| !(#[trigger] group_sum(r, m) is Overflow) by {
            lemma_group_of_collected(r, r.len() as int, m);
        }
        assert(combinable(r));
        assert forall|i: int| 0 <= i < r.len() implies group_sum(r, (#[trigger] r[i]).factors)
            == GroupSum::Total(r[i].coef) by {
            lemma_group_of_collected(r, r.len() as int, r[i].factors);
        }
        assert forall|m: Seq<FactorModel>|
            (#[trigger] group_sum(r, m) matches GroupSum::Total(c) && c.numer != 0) implies exists|
            i: int,
        |
            0 <= i < r.len() && (#[trigger] r[i]).factors == m by {
            lemma_group_of_collected(r, r.len() as int, m);
        }
        assert(is_combined(r, r));
        lemma_combined_is(r, r);
    }
}

/// A canonical form that is lifted into the tree and lowered again is the
/// simplified form it was lifted from, whatever its denominator; so the two
/// have the same numerator and the same denominator once like terms are
/// collected.
pub proof fn law_lift_then_lower(r: RationalModel)
    ensures
        lifted(r) matches Some(e) ==> {
            &&& lower(e) == simplified(r)
            &&& combined(lower(e).unwrap().numer) == combined(simplified(r).unwrap().numer)
            &&& combined(lower(e).unwrap().denom) == combined(simplified(r).unwrap().denom)
        },
{
}

/// A sum does not depend on the order of its two parts: `a + b` and `b + a`
/// are equivalent, wherever the canonical form of their difference can be
/// computed.
pub proof fn law_sum_commutes(a: ExprModel, b: ExprModel)
    requires
        valid_expr(a),
        valid_expr(b),
        comparable(a.plus(b), b.plus(a)),
    ensures
        equivalence(a.plus(b), b.plus(a)) == Some(true),
{
    let sa = a.summands();
    let sb = b.summands();
    let list = (sa + sb) + reversed_operands(sb + sa);
    let r = lower(a.plus(b).minus(b.plus(a))).unwrap();
    assert(a.plus(b).minus(b.plus(a)) == ExprModel::Sum(list));
    assert(r == lower_sum(list, list.len()).unwrap());
    lemma_summands_valid(a);
    lemma_summands_valid(b);
    assert(valid_operands(list)) by {
        assert forall|i: int| 0 <= i < list.len() implies valid_expr((#[trigger] list[i]).expr) by {
            let n = sa.len() + sb.len();
            if i < sa.len() {
                assert(list[i].expr == sa[i].expr);
            } else if i < n {
                assert(list[i].expr == sb[i - sa.len()].expr);
            } else if i - n < sb.len() {
                assert(list[i].expr == sb[i - n].expr);
            } else {
                assert(list[i].expr == sa[i - n - sb.len()].expr);
            }
        }
    }
    lemma_zero_form();
    let z = zero_form();
    let fa = forms_of(sa);
    let fb = forms_of(sb);
    lemma_forms_of_concat(sa, sb);
    lemma_forms_of_concat(sb, sa);
    lemma_forms_of_reversed(sb + sa);
    lemma_forms_of_concat(sa + sb, reversed_operands(sb + sa));
    assert(forms_of(list) == (fa + fb) + reversed_forms(fb + fa));
    assert(forms_of(list).take(list.len() as int) =~= forms_of(list));
    lemma_lower_sum_meaning(list, list.len());
    lemma_lower_sum_valid(list, list.len());
    lemma_sum_swap(z, fa, fb);
    lemma_sum_cancels(z, fa + fb, fb + fa);
    assert forall|e: spec_fn(Seq<char>) -> int| #[trigger] coef(sem(r.numer), e) == 0real by {
        assert(coef(sem_fraction(r).numer, e) == coef(
            sum_of_forms(z, forms_of(list)).numer,
            e,
        ));
    }
    lemma_zero_numerator_verdict(r);
}

/// A product does not depend on the order of its two parts: `a * b` and
/// `b * a` are equivalent, wherever the canonical form of their difference
/// can be computed.
pub proof fn law_product_commutes(a: ExprModel, b: ExprModel)
    requires
        valid_expr(a),
        valid_expr(b),
        comparable(a.times(b), b.times(a)),
    ensures
        equivalence(a.times(b), b.times(a)) == Some(true),
{
    let ma = a.multiplicands();
    let mb = b.multiplicands();
    let x = a.times(b);
    let y = b.times(a);
    lemma_multiplicands_valid(a);
    lemma_multiplicands_valid(b);
    assert(valid_operands(ma + mb)) by {
        assert forall|i: int| 0 <= i < (ma + mb).len() implies valid_expr(
            (#[trigger] (ma + mb)[i]).expr,
        ) by {
            if i < ma.len() {
                assert((ma + mb)[i].expr == ma[i].expr);
            } else {
                assert((ma + mb)[i].expr == mb[i - ma.len()].expr);
            }
        }
    }
    assert(valid_operands(mb + ma)) by {
        assert forall|i: int| 0 <= i < (mb + ma).len() implies valid_expr(
            (#[trigger] (mb + ma)[i]).expr,
        ) by {
            if i < mb.len() {
                assert((mb + ma)[i].expr == mb[i].expr);
            } else {
                assert((mb + ma)[i].expr == ma[i - mb.len()].expr);
            }
        }
    }
    assert(valid_expr(x));
    assert(valid_expr(y));
    if lower(x) is Some && lower(y) is Some {
        lemma_unit_form();
        let u = unit_form();
        let fa = forms_of(ma);
        let fb = forms_of(mb);
        lemma_forms_of_concat(ma, mb);
        lemma_forms_of_concat(mb, ma);
        assert(forms_of(ma + mb).take((ma + mb).len() as int) =~= fa + fb);
        assert(forms_of(mb + ma).take((mb + ma).len() as int) =~= fb + fa);
        lemma_lower_product_meaning(ma + mb, (ma + mb).len());
        lemma_lower_product_meaning(mb + ma, (mb + ma).len());
        lemma_product_swap(u, fa, fb);
        let gx = sem_fraction(lower(x).unwrap());
        let gy = sem_fraction(lower(y).unwrap());
        let px = product_of_forms(u, fa + fb);
        let py = product_of_forms(u, fb + fa);
        assert forall|e: spec_fn(Seq<char>) -> int| #[trigger]
            coef(gx.numer, e) == coef(gy.numer, e) by {
            assert(coef(gx.numer, e) == coef(px.numer, e));
            assert(coef(gy.numer, e) == coef(py.numer, e));
            assert(coef(px.numer, e) == coef(py.numer, e));
        }
        assert forall|e: spec_fn(Seq<char>) -> int| #[trigger]
            coef(gx.denom, e) == coef(gy.denom, e) by {
            assert(coef(gx.denom, e) == coef(px.denom, e));
            assert(coef(gy.denom, e) == coef(py.denom, e));
            assert(coef(px.denom, e) == coef(py.denom, e));
        }
    }
    lemma_same_fraction_equivalent(x, y);
}

/// Every expression is equivalent to itself, wherever the canonical form of
/// the difference can be computed.
pub proof fn law_reflexive(x: ExprModel)
    requires
        valid_expr(x),
        comparable(x, x),
    ensures
        equivalence(x, x) == Some(true),
{
    assert forall|e: spec_fn(Seq<char>) -> int| #[trigger]
        conv(as_sum(x).numer, as_sum(x).denom, e) == conv(
            as_sum(x).numer,
            as_sum(x).denom,
            e,
        ) by {}
    lemma_cross_equivalent(x, x);
}

/// Dividing by one expression and then by another is dividing by their
/// product: `(a / b) / c` and `a / (b * c)` are the same expression, and
/// so equivalent wherever the canonical form of their difference can be
/// computed.
pub proof fn law_divide_twice(a: ExprModel, b: ExprModel, c: ExprModel)
    requires
        valid_expr(a),
        valid_expr(b),
        valid_expr(c),
        comparable(a.over(b).over(c), a.over(b.times(c))),
    ensures
        a.over(b).over(c) == a.over(b.times(c)),
        equivalence(a.over(b).over(c), a.over(b.times(c))) == Some(true),
{
    let ma = a.multiplicands();
    let mb = b.multiplicands();
    let mc = c.multiplicands();
    let x = a.over(b).over(c);
    let y = a.over(b.times(c));
    assert((ma + reversed_operands(mb)) + reversed_operands(mc) =~= ma + reversed_operands(
        mb + mc,
    ));
    assert(x == y);
    lemma_multiplicands_valid(a);
    lemma_multiplicands_valid(b);
    lemma_multiplicands_valid(c);
    let list = ma + reversed_operands(mb + mc);
    assert(valid_operands(list)) by {
        assert forall|i: int| 0 <= i < list.len() implies valid_expr((#[trigger] list[i]).expr) by {
            if i < ma.len() {
                assert(list[i].expr == ma[i].expr);
            } else if i - ma.len() < mb.len() {
                assert(list[i].expr == mb[i - ma.len()].expr);
            } else {
                assert(list[i].expr == mc[i - ma.len() - mb.len()].expr);
            }
        }
    }
    assert(valid_expr(y));
    law_reflexive(x);
}

/// Dividing a product is multiplying by a quotient: `(a * b) / c` and
/// `a * (b / c)` are the same expression, and so equivalent wherever the
/// canonical form of their difference can be computed.
pub proof fn law_divide_product(a: ExprModel, b: ExprModel, c: ExprModel)
    requires
        valid_expr(a),
        valid_expr(b),
        valid_expr(c),
        comparable(a.times(b).over(c), a.times(b.over(c))),
    ensures
        a.times(b).over(c) == a.times(b.over(c)),
        equivalence(a.times(b).over(c), a.times(b.over(c))) == Some(true),
{
    let ma = a.multiplicands();
    let mb = b.multiplicands();
    let mc = c.multiplicands();
    let x = a.times(b).over(c);
    let y = a.times(b.over(c));
    assert((ma + mb) + reversed_operands(mc) =~= ma + (mb + reversed_operands(mc)));
    assert(x == y);
    lemma_multiplicands_valid(a);
    lemma_multiplicands_valid(b);
    lemma_multiplicands_valid(c);
    let list = (ma + mb) + reversed_operands(mc);
    assert(valid_operands(list)) by {
        assert forall|i: int| 0 <= i < list.len() implies valid_expr((#[trigger] list[i]).expr) by {
            if i < ma.len() {
                assert(list[i].expr == ma[i].expr);
            } else if i - ma.len() < mb.len() {
                assert(list[i].expr == mb[i - ma.len()].expr);
            } else {
                assert(list[i].expr == mc[i - ma.len() - mb.len()].expr);
            }
        }
    }
    assert(valid_expr(x));
    law_reflexive(x);
}

/// Multiplying both parts of a quotient by the same nonzero constant changes
/// nothing: `n / d` and `(k * n) / (k * d)` are equivalent, wherever the
/// canonical form of their difference can be computed.
pub proof fn law_quotient_scales(n: ExprModel, d: ExprModel, k: nat)
    requires
        valid_expr(n),
        valid_expr(d),
        k != 0,
        comparable(
            n.over(d),
            ExprModel::Constant(k).times(n).over(ExprModel::Constant(k).times(d)),
        ),
    ensures
        equivalence(
            n.over(d),
            ExprModel::Constant(k).times(n).over(ExprModel::Constant(k).times(d)),
        ) == Some(true),
{
    let c = ExprModel::Constant(k);
    let mn = n.multiplicands();
    let md = d.multiplicands();
    let x = n.over(d);
    let y = c.times(n).over(c.times(d));
    let up = seq![OperandModel::positive(c)];
    let down = reversed_operands(up);
    let rd = reversed_operands(md);
    let lx = mn + rd;
    let ly = ((up + mn) + down) + rd;
    assert(c.multiplicands() == up);
    assert(reversed_operands(up + md) =~= down + rd);
    assert((up + mn) + (down + rd) =~= ly);
    assert(x == ExprModel::Product(lx));
    assert(y == ExprModel::Product(ly));
    lemma_multiplicands_valid(n);
    lemma_multiplicands_valid(d);
    assert(valid_operands(lx)) by {
        assert forall|i: int| 0 <= i < lx.len() implies valid_expr((#[trigger] lx[i]).expr) by {
            if i < mn.len() {
                assert(lx[i].expr == mn[i].expr);
            } else {
                assert(lx[i].expr == md[i - mn.len()].expr);
            }
        }
    }
    assert(valid_operands(ly)) by {
        assert forall|i: int| 0 <= i < ly.len() implies valid_expr((#[trigger] ly[i]).expr) by {
            if i < 1 {
                assert(ly[i].expr == c);
            } else if i < 1 + mn.len() {
                assert(ly[i].expr == mn[i - 1].expr);
            } else if i < 2 + mn.len() {
                assert(ly[i].expr == c);
            } else {
                assert(ly[i].expr == md[i - 2 - mn.len()].expr);
            }
        }
    }
    assert(valid_expr(x));
    assert(valid_expr(y));
    if lower(x) is Some && lower(y) is Some {
        lemma_unit_form();
        let u = unit_form();
        lemma_lower_product_meaning(lx, lx.len());
        lemma_lower_product_meaning(ly, ly.len());
        assert(forms_of(lx).take(lx.len() as int) =~= forms_of(lx));
        assert(forms_of(ly).take(ly.len() as int) =~= forms_of(ly));
        let f = forms_of(mn);
        let g = forms_of(rd);
        let k1 = form_of(OperandModel::positive(c));
        let k2 = Form { ty: Type::Negative, value: k1.value };
        assert(forms_of(lx) =~= f + g);
        assert(forms_of(ly) =~= ((seq![k1] + f) + seq![k2]) + g);
        // the constant can be lowered, as the whole of `y` can
        lemma_lower_product_valid(ly, ly.len());
        assert(ly[0].expr == c);
        assert(lower(c) is Some);
        assert(k <= isize::MAX);
        let kt = TermModel::constant(k as int);
        let one = TermModel::constant(1);
        assert(lower(c).unwrap().numer =~= seq![kt]);
        assert(lower(c).unwrap().denom =~= seq![one]);
        assert(k1.value.numer =~= seq![sem_term(kt)]);
        assert(k1.value.denom =~= seq![sem_term(one)]);
        assert((k as int as real) / (1int as real) != 0real) by (nonlinear_arith)
            requires
                k != 0,
        ;
        assert((1int as real) / (1int as real) != 0real) by (nonlinear_arith);
        assert(sem_term(kt).value == (k as int as real) / (1int as real));
        assert(sem_term(one).value == (1int as real) / (1int as real));
        lemma_pair_is_unit(u, k1);
        lemma_product_without_pair(u, k1, f, k2, g);
        let gx = sem_fraction(lower(x).unwrap());
        let gy = sem_fraction(lower(y).unwrap());
        let px = product_of_forms(u, f + g);
        let py = product_of_forms(u, ((seq![k1] + f) + seq![k2]) + g);
        lemma_same_fraction_chain(gy, py, px);
        lemma_same_fraction_chain(gx, px, gy);
    }
    lemma_same_fraction_equivalent(x, y);
}

/// Scaling a quotient of sums: `(a + b) / (c + d)` and
/// `(k * (a + b)) / (k * (c + d))` are equivalent for every nonzero constant
/// `k`, wherever the canonical form of their difference can be computed.
pub proof fn law_scale_invariant(a: ExprModel, b: ExprModel, c: ExprModel, d: ExprModel, k: nat)
    requires
        valid_expr(a),
        valid_expr(b),
        valid_expr(c),
        valid_expr(d),
        k != 0,
        comparable(
            a.plus(b).over(c.plus(d)),
            ExprModel::Constant(k).times(a.plus(b)).over(ExprModel::Constant(k).times(c.plus(d))),
        ),
    ensures
        equivalence(
            a.plus(b).over(c.plus(d)),
            ExprModel::Constant(k).times(a.plus(b)).over(ExprModel::Constant(k).times(c.plus(d))),
        ) == Some(true),
{
    lemma_plus_valid(a, b);
    lemma_plus_valid(c, d);
    law_quotient_scales(a.plus(b), c.plus(d), k);
}

/// A product distributes over a sum with one: `a * (b + 1)` and
/// `a * b + a` are equivalent, wherever the canonical form of their
/// difference can be computed.
pub proof fn law_distributes(a: ExprModel, b: ExprModel)
    requires
        valid_expr(a),
        valid_expr(b),
        comparable(
            a.times(b.plus(ExprModel::Constant(1))),
            a.times(b).plus(a),
        ),
    ensures
        equivalence(a.times(b.plus(ExprModel::Constant(1))), a.times(b).plus(a)) == Some(true),
{
    let one = ExprModel::Constant(1);
    let s = b.plus(one);
    let p = a.times(b);
    let x = a.times(s);
    let y = p.plus(a);
    let ma = a.multiplicands();
    let mb = b.multiplicands();
    let sa = a.summands();
    let sb = b.summands();
    let ls = sb + seq![OperandModel::positive(one)];
    let lx = ma + seq![OperandModel::positive(s)];
    let lp = ma + mb;
    let ly = seq![OperandModel::positive(p)] + sa;
    assert(one.summands() == seq![OperandModel::positive(one)]);
    assert(s == ExprModel::Sum(ls));
    assert(s.multiplicands() == seq![OperandModel::positive(s)]);
    assert(x == ExprModel::Product(lx));
    assert(p == ExprModel::Product(lp));
    assert(p.summands() == seq![OperandModel::positive(p)]);
    assert(y == ExprModel::Sum(ly));
    lemma_plus_valid(b, one);
    lemma_times_valid(a, b);
    lemma_times_valid(a, s);
    lemma_plus_valid(p, a);
    lemma_summands_valid(a);
    lemma_summands_valid(b);
    lemma_multiplicands_valid(a);
    lemma_multiplicands_valid(b);
    assert(valid_operands(ls));
    assert(valid_operands(lx));
    assert(valid_operands(lp));
    assert(valid_operands(ly));
    // every part has a canonical form
    let none = |v: Seq<char>| 0int;
    lemma_difference_numerator(x, y, none);
    assert(x.summands()[0].expr == x);
    assert(lower(x) is Some);
    assert(ly[0].expr == p);
    assert(lower(p) is Some);
    lemma_lower_product_valid(lx, lx.len());
    lemma_lower_product_valid(lp, lp.len());
    assert(lx[ma.len() as int].expr == s);
    assert(lower(s) is Some);
    lemma_lower_sum_valid(ls, ls.len());
    assert(ls[sb.len() as int].expr == one);
    assert(lower(a) is Some) by {
        if a is Product {
            assert(ly[1].expr == a);
        } else {
            assert(lx[0].expr == a);
        }
    }
    assert(lower(b) is Some) by {
        if b is Product {
            assert(ls[0].expr == b);
        } else {
            assert(lp[ma.len() as int].expr == b);
        }
    }
    // no denominator that a product divides by is zero
    let diff = x.summands() + reversed_operands(ly);
    assert(x.minus(y) == ExprModel::Sum(diff));
    assert(!(a is Product) ==> !zero_polynomial(lowered(a).denom)) by {
        match a {
            ExprModel::Sum(ops) => {
                lemma_lowered_sum_denominator(ops, ops.len());
            },
            ExprModel::Product(ops) => {},
            _ => {
                assert(diff[2].expr == a);
                assert(valid_operands(diff)) by {
                    assert forall|i: int| 0 <= i < diff.len() implies valid_expr(
                        (#[trigger] diff[i]).expr,
                    ) by {
                        if i == 0 {
                            assert(diff[i].expr == x);
                        } else {
                            assert(diff[i].expr == ly[i - 1].expr);
                        }
                    }
                }
                lemma_summand_denominator(diff, diff.len(), 2);
            },
        }
    }
    assert(!(b is Product) ==> !zero_polynomial(lowered(b).denom)) by {
        match b {
            ExprModel::Sum(ops) => {
                lemma_lowered_sum_denominator(ops, ops.len());
            },
            ExprModel::Product(ops) => {},
            _ => {
                assert(ls[0].expr == b);
                lemma_summand_denominator(ls, ls.len(), 0);
            },
        }
    }
    lemma_lowered_sum_denominator(ls, ls.len());
    lemma_as_product_scaled(a);
    lemma_as_product_scaled(b);
    lemma_as_product_scaled(s);
    lemma_zero_form();
    lemma_unit_form();
    let z = zero_form();
    let u = unit_form();
    let la = lowered(a);
    let lb = lowered(b);
    let l1 = lowered(one);
    let lsum = lowered(s);
    let pa = as_product(a);
    let pb = as_product(b);
    let ps = as_product(s);
    let fa = factor_of(a);
    let fb = factor_of(b);
    let fs = factor_of(s);
    assert(l1 == u);
    // the left side
    let big_x = cross(la, join(lb, l1));
    let vx = as_sum(x);
    lemma_as_sum_lowered(x);
    lemma_lower_product_meaning(lx, lx.len());
    assert(forms_of(lx).take(lx.len() as int) =~= forms_of(lx));
    lemma_forms_of_concat(ma, seq![OperandModel::positive(s)]);
    lemma_product_append(u, forms_of(ma), forms_of(seq![OperandModel::positive(s)]));
    assert(product_of_forms(u, forms_of(seq![OperandModel::positive(s)])) == ps);
    lemma_same_fraction_chain(vx, lowered(x), product_of_forms(u, forms_of(lx)));
    lemma_same_fraction_chain(vx, product_of_forms(u, forms_of(lx)), cross(pa, ps));
    lemma_scaled_cross(pa, la, fa, ps, lsum, fs);
    lemma_lower_sum_meaning(ls, ls.len());
    assert(forms_of(ls).take(ls.len() as int) =~= forms_of(ls));
    lemma_forms_of_concat(sb, seq![OperandModel::positive(one)]);
    lemma_sum_append(z, forms_of(sb), forms_of(seq![OperandModel::positive(one)]));
    lemma_as_sum_lowered(b);
    lemma_as_sum_lowered(one);
    lemma_join_same(as_sum(b), lb, as_sum(one), l1);
    lemma_same_fraction_chain(lsum, sum_of_forms(z, forms_of(ls)), join(as_sum(b), as_sum(one)));
    lemma_same_fraction_chain(lsum, join(as_sum(b), as_sum(one)), join(lb, l1));
    lemma_cross_same(la, la, lsum, join(lb, l1));
    lemma_scaled_same(vx, cross(pa, ps), big_x, cross(la, lsum), times(fa, fs));
    lemma_unit_terms_multiply(fa, fs);
    // the right side
    let big_y = join(cross(la, lb), la);
    let vy = as_sum(y);
    lemma_forms_of_concat(seq![OperandModel::positive(p)], sa);
    lemma_sum_append(z, forms_of(seq![OperandModel::positive(p)]), forms_of(sa));
    assert(sum_of_forms(z, forms_of(seq![OperandModel::positive(p)])) == as_sum(p));
    lemma_as_sum_lowered(p);
    lemma_as_sum_lowered(a);
    lemma_lower_product_meaning(lp, lp.len());
    assert(forms_of(lp).take(lp.len() as int) =~= forms_of(lp));
    lemma_forms_of_concat(ma, mb);
    lemma_product_append(u, forms_of(ma), forms_of(mb));
    lemma_same_fraction_chain(as_sum(p), lowered(p), product_of_forms(u, forms_of(lp)));
    lemma_same_fraction_chain(as_sum(p), product_of_forms(u, forms_of(lp)), cross(pa, pb));
    lemma_scaled_cross(pa, la, fa, pb, lb, fb);
    lemma_scaled_same(as_sum(p), cross(pa, pb), cross(la, lb), cross(la, lb), times(fa, fb));
    lemma_scaled_itself(la);
    lemma_scaled_same(as_sum(a), la, la, la, unit());
    lemma_scaled_join(as_sum(p), cross(la, lb), times(fa, fb), as_sum(a), la, unit());
    lemma_scaled_same(
        vy,
        join(as_sum(p), as_sum(a)),
        big_y,
        big_y,
        times(times(fa, fb), unit()),
    );
    lemma_unit_terms_multiply(fa, fb);
    lemma_unit_terms_multiply(times(fa, fb), unit());
    // both sides agree crosswise
    lemma_ratio_distributes(la, lb, l1);
    lemma_ratio_of_scaled(vx, big_x, times(fa, fs), vy, big_y, times(times(fa, fb), unit()));
    assert forall|e: spec_fn(Seq<char>) -> int| #[trigger]
        conv(vx.numer, vy.denom, e) == conv(vy.numer, vx.denom, e) by {
        lemma_times_coef(vx.numer, vy.denom, e);
        lemma_times_coef(vy.numer, vx.denom, e);
        assert(coef(times(vx.numer, vy.denom), e) == coef(times(vy.numer, vx.denom), e));
    }
    lemma_cross_equivalent(x, y);
}

} // verus!
