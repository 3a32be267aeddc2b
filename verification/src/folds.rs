//! Sums of fractions of polynomials, and what does not change them: the
//! order of the summands, and adding a list and then taking it away.

use crate::coefficients::{
    coef, lemma_coef_concat, lemma_coef_ext, same_polynomial, SemTerm, zero_polynomial,
};
use crate::expr::Type;
use crate::ring::{
    conv, divided, lemma_conv_associates, lemma_conv_both, lemma_conv_commutes, lemma_conv_concat,
    lemma_conv_divided, lemma_conv_left, lemma_conv_negation, lemma_conv_right, lemma_conv_unit,
    lemma_conv_zero, lemma_divided_coef, lemma_negation_coef, lemma_times_coef, negation, shifted,
    times, unit, unshifted,
};
use vstd::prelude::*;

verus! {

/// A fraction of two polynomials.
pub struct SemFraction {
    pub numer: Seq<SemTerm>,
    pub denom: Seq<SemTerm>,
}

/// A fraction with the sign with which it enters a sum or a product.
pub struct Form {
    pub ty: Type,
    pub value: SemFraction,
}

/// Two fractions have the same numerator and the same denominator, as
/// polynomials.
pub open spec fn same_fraction(x: SemFraction, y: SemFraction) -> bool {
    same_polynomial(x.numer, y.numer) && same_polynomial(x.denom, y.denom)
}

/// A numerator with the sign of its operand.
pub open spec fn signed(n: Seq<SemTerm>, ty: Type) -> Seq<SemTerm> {
    match ty {
        Type::Positive => n,
        Type::Negative => negation(n),
    }
}

/// A sum so far and one more fraction, over the product of the
/// denominators.
pub open spec fn add_step(acc: SemFraction, r: SemFraction, ty: Type) -> SemFraction {
    SemFraction {
        numer: times(acc.numer, r.denom) + times(signed(r.numer, ty), acc.denom),
        denom: times(acc.denom, r.denom),
    }
}

/// The sum of two fractions over the product of the denominators.
pub open spec fn join(x: SemFraction, y: SemFraction) -> SemFraction {
    SemFraction {
        numer: times(x.numer, y.denom) + times(y.numer, x.denom),
        denom: times(x.denom, y.denom),
    }
}

/// A numerator that stands for zero over a denominator that stands for one.
pub open spec fn is_zero_fraction(z: SemFraction) -> bool {
    zero_polynomial(z.numer) && same_polynomial(z.denom, unit())
}

/// The sum of the forms, taken from left to right, starting from `z`.
pub open spec fn sum_of_forms(z: SemFraction, fs: Seq<Form>) -> SemFraction
    decreases fs.len(),
{
    if fs.len() == 0 {
        z
    } else {
        add_step(sum_of_forms(z, fs.drop_last()), fs.last().value, fs.last().ty)
    }
}

/// The forms with every sign reversed.
pub open spec fn reversed_forms(fs: Seq<Form>) -> Seq<Form> {
    Seq::new(fs.len(), |i: int| Form { ty: fs[i].ty.reversed(), value: fs[i].value })
}

/// The coefficients of the numerator and of the denominator after one step
/// of a sum.
pub proof fn lemma_add_step_coef(
    acc: SemFraction,
    r: SemFraction,
    ty: Type,
    e: spec_fn(Seq<char>) -> int,
)
    ensures
        coef(add_step(acc, r, ty).numer, e) == conv(acc.numer, r.denom, e) + conv(
            signed(r.numer, ty),
            acc.denom,
            e,
        ),
        coef(add_step(acc, r, ty).denom, e) == conv(acc.denom, r.denom, e),
{
    lemma_coef_concat(times(acc.numer, r.denom), times(signed(r.numer, ty), acc.denom), e);
    lemma_times_coef(acc.numer, r.denom, e);
    lemma_times_coef(signed(r.numer, ty), acc.denom, e);
    lemma_times_coef(acc.denom, r.denom, e);
}

/// The coefficients of the sum of two fractions.
pub proof fn lemma_join_coef(x: SemFraction, y: SemFraction, e: spec_fn(Seq<char>) -> int)
    ensures
        coef(join(x, y).numer, e) == conv(x.numer, y.denom, e) + conv(y.numer, x.denom, e),
        coef(join(x, y).denom, e) == conv(x.denom, y.denom, e),
{
    lemma_coef_concat(times(x.numer, y.denom), times(y.numer, x.denom), e);
    lemma_times_coef(x.numer, y.denom, e);
    lemma_times_coef(y.numer, x.denom, e);
    lemma_times_coef(x.denom, y.denom, e);
}

/// The product of two polynomials does not depend on their order.
pub proof fn lemma_times_commutes(p: Seq<SemTerm>, q: Seq<SemTerm>)
    ensures
        same_polynomial(times(p, q), times(q, p)),
{
    assert forall|e: spec_fn(Seq<char>) -> int| #[trigger]
        coef(times(p, q), e) == coef(times(q, p), e) by {
        lemma_times_coef(p, q, e);
        lemma_times_coef(q, p, e);
        lemma_conv_commutes(p, q, e);
    }
}

/// `(c * b) * d` is `(c * d) * b`.
pub proof fn lemma_rotate(
    c: Seq<SemTerm>,
    b: Seq<SemTerm>,
    d: Seq<SemTerm>,
    e: spec_fn(Seq<char>) -> int,
)
    ensures
        conv(times(c, b), d, e) == conv(times(c, d), b, e),
{
    lemma_conv_associates(c, b, d, e);
    lemma_times_commutes(b, d);
    lemma_conv_right(c, times(b, d), times(d, b), e);
    lemma_conv_associates(c, d, b, e);
}

/// `s * (b * d)` is `(s * d) * b`.
pub proof fn lemma_regroup(
    s: Seq<SemTerm>,
    b: Seq<SemTerm>,
    d: Seq<SemTerm>,
    e: spec_fn(Seq<char>) -> int,
)
    ensures
        conv(s, times(b, d), e) == conv(times(s, d), b, e),
{
    lemma_times_commutes(b, d);
    lemma_conv_right(s, times(b, d), times(d, b), e);
    lemma_conv_associates(s, d, b, e);
}

/// A step of a sum depends on the sum so far through its polynomials only.
pub proof fn lemma_add_step_same(acc: SemFraction, acc2: SemFraction, r: SemFraction, ty: Type)
    requires
        same_fraction(acc, acc2),
    ensures
        same_fraction(add_step(acc, r, ty), add_step(acc2, r, ty)),
{
    assert forall|e: spec_fn(Seq<char>) -> int| #[trigger]
        coef(add_step(acc, r, ty).numer, e) == coef(add_step(acc2, r, ty).numer, e) by {
        lemma_add_step_coef(acc, r, ty, e);
        lemma_add_step_coef(acc2, r, ty, e);
        lemma_conv_left(acc.numer, acc2.numer, r.denom, e);
        lemma_conv_right(signed(r.numer, ty), acc.denom, acc2.denom, e);
    }
    assert forall|e: spec_fn(Seq<char>) -> int| #[trigger]
        coef(add_step(acc, r, ty).denom, e) == coef(add_step(acc2, r, ty).denom, e) by {
        lemma_add_step_coef(acc, r, ty, e);
        lemma_add_step_coef(acc2, r, ty, e);
        lemma_conv_left(acc.denom, acc2.denom, r.denom, e);
    }
}

/// The sum of two lists of forms, one after the other, is the sum of their
/// sums.
pub proof fn lemma_sum_append(z: SemFraction, f: Seq<Form>, g: Seq<Form>)
    requires
        is_zero_fraction(z),
    ensures
        same_fraction(sum_of_forms(z, f + g), join(sum_of_forms(z, f), sum_of_forms(z, g))),
    decreases g.len(),
{
    let x = sum_of_forms(z, f);
    if g.len() == 0 {
        assert(f + g =~= f);
        assert forall|e: spec_fn(Seq<char>) -> int| #[trigger]
            coef(x.numer, e) == coef(join(x, z).numer, e) by {
            lemma_join_coef(x, z, e);
            lemma_conv_right(x.numer, z.denom, unit(), e);
            lemma_conv_unit(x.numer, e);
            lemma_conv_zero(z.numer, x.denom, e);
        }
        assert forall|e: spec_fn(Seq<char>) -> int| #[trigger]
            coef(x.denom, e) == coef(join(x, z).denom, e) by {
            lemma_join_coef(x, z, e);
            lemma_conv_right(x.denom, z.denom, unit(), e);
            lemma_conv_unit(x.denom, e);
        }
    } else {
        let g0 = g.drop_last();
        let last = g.last();
        let zz = sum_of_forms(z, g0);
        let w = sum_of_forms(z, f + g0);
        lemma_sum_append(z, f, g0);
        assert((f + g).drop_last() =~= f + g0);
        assert((f + g).last() == last);
        let d = last.value.denom;
        let sn = signed(last.value.numer, last.ty);
        let target = join(x, add_step(zz, last.value, last.ty));
        assert forall|e: spec_fn(Seq<char>) -> int| #[trigger]
            coef(add_step(w, last.value, last.ty).numer, e) == coef(target.numer, e) by {
            lemma_add_step_coef(w, last.value, last.ty, e);
            lemma_join_coef(x, add_step(zz, last.value, last.ty), e);
            // the left side, through what is known of `w`
            lemma_conv_left(w.numer, join(x, zz).numer, d, e);
            lemma_conv_right(sn, w.denom, join(x, zz).denom, e);
            lemma_conv_concat(times(x.numer, zz.denom), times(zz.numer, x.denom), d, e);
            // the right side
            lemma_conv_concat(times(zz.numer, d), times(sn, zz.denom), x.denom, e);
            // term by term
            lemma_conv_associates(x.numer, zz.denom, d, e);
            lemma_rotate(zz.numer, x.denom, d, e);
            lemma_regroup(sn, x.denom, zz.denom, e);
        }
        assert forall|e: spec_fn(Seq<char>) -> int| #[trigger]
            coef(add_step(w, last.value, last.ty).denom, e) == coef(target.denom, e) by {
            lemma_add_step_coef(w, last.value, last.ty, e);
            lemma_join_coef(x, add_step(zz, last.value, last.ty), e);
            lemma_conv_left(w.denom, join(x, zz).denom, d, e);
            lemma_conv_associates(x.denom, zz.denom, d, e);
        }
    }
}

/// Reversing every sign negates the numerator of the sum and leaves the
/// denominator.
pub proof fn lemma_sum_reversed(z: SemFraction, f: Seq<Form>)
    requires
        is_zero_fraction(z),
    ensures
        same_polynomial(
            sum_of_forms(z, reversed_forms(f)).numer,
            negation(sum_of_forms(z, f).numer),
        ),
        same_polynomial(sum_of_forms(z, reversed_forms(f)).denom, sum_of_forms(z, f).denom),
    decreases f.len(),
{
    let rf = reversed_forms(f);
    if f.len() == 0 {
        assert(rf.len() == 0);
        assert forall|e: spec_fn(Seq<char>) -> int| #[trigger]
            coef(z.numer, e) == coef(negation(z.numer), e) by {
            lemma_negation_coef(z.numer, e);
        }
    } else {
        let f0 = f.drop_last();
        let last = f.last();
        lemma_sum_reversed(z, f0);
        assert(rf.drop_last() =~= reversed_forms(f0));
        assert(rf.last() == Form { ty: last.ty.reversed(), value: last.value });
        let a = sum_of_forms(z, f0);
        let b = sum_of_forms(z, reversed_forms(f0));
        let n = last.value.numer;
        let d = last.value.denom;
        assert forall|e: spec_fn(Seq<char>) -> int| #[trigger]
            coef(sum_of_forms(z, rf).numer, e) == coef(negation(sum_of_forms(z, f).numer), e) by {
            lemma_add_step_coef(b, last.value, last.ty.reversed(), e);
            lemma_add_step_coef(a, last.value, last.ty, e);
            lemma_negation_coef(sum_of_forms(z, f).numer, e);
            lemma_conv_left(b.numer, negation(a.numer), d, e);
            lemma_conv_negation(a.numer, d, e);
            lemma_conv_right(signed(n, last.ty.reversed()), b.denom, a.denom, e);
            lemma_conv_negation(n, a.denom, e);
        }
        assert forall|e: spec_fn(Seq<char>) -> int| #[trigger]
            coef(sum_of_forms(z, rf).denom, e) == coef(sum_of_forms(z, f).denom, e) by {
            lemma_add_step_coef(b, last.value, last.ty.reversed(), e);
            lemma_add_step_coef(a, last.value, last.ty, e);
            lemma_conv_left(b.denom, a.denom, d, e);
        }
    }
}

/// The sum of two lists of forms does not depend on which comes first.
pub proof fn lemma_sum_swap(z: SemFraction, f: Seq<Form>, g: Seq<Form>)
    requires
        is_zero_fraction(z),
    ensures
        same_fraction(sum_of_forms(z, f + g), sum_of_forms(z, g + f)),
{
    let x = sum_of_forms(z, f);
    let y = sum_of_forms(z, g);
    lemma_sum_append(z, f, g);
    lemma_sum_append(z, g, f);
    assert forall|e: spec_fn(Seq<char>) -> int| #[trigger]
        coef(sum_of_forms(z, f + g).numer, e) == coef(sum_of_forms(z, g + f).numer, e) by {
        lemma_join_coef(x, y, e);
        lemma_join_coef(y, x, e);
        assert(coef(sum_of_forms(z, f + g).numer, e) == coef(join(x, y).numer, e));
        assert(coef(sum_of_forms(z, g + f).numer, e) == coef(join(y, x).numer, e));
    }
    assert forall|e: spec_fn(Seq<char>) -> int| #[trigger]
        coef(sum_of_forms(z, f + g).denom, e) == coef(sum_of_forms(z, g + f).denom, e) by {
        lemma_join_coef(x, y, e);
        lemma_join_coef(y, x, e);
        lemma_conv_commutes(x.denom, y.denom, e);
        assert(coef(sum_of_forms(z, f + g).denom, e) == coef(join(x, y).denom, e));
        assert(coef(sum_of_forms(z, g + f).denom, e) == coef(join(y, x).denom, e));
    }
}

/// A sum from which an equal sum is taken away has a numerator that stands
/// for zero.
pub proof fn lemma_sum_cancels(z: SemFraction, p: Seq<Form>, q: Seq<Form>)
    requires
        is_zero_fraction(z),
        same_fraction(sum_of_forms(z, p), sum_of_forms(z, q)),
    ensures
        zero_polynomial(sum_of_forms(z, p + reversed_forms(q)).numer),
{
    let x = sum_of_forms(z, p);
    let y = sum_of_forms(z, q);
    let r = sum_of_forms(z, reversed_forms(q));
    lemma_sum_append(z, p, reversed_forms(q));
    lemma_sum_reversed(z, q);
    assert forall|e: spec_fn(Seq<char>) -> int| #[trigger]
        coef(sum_of_forms(z, p + reversed_forms(q)).numer, e) == 0real by {
        lemma_join_coef(x, r, e);
        assert(coef(sum_of_forms(z, p + reversed_forms(q)).numer, e) == coef(join(x, r).numer, e));
        // x.numer * r.denom is x.numer * x.denom
        assert(same_polynomial(r.denom, x.denom)) by {
            assert forall|k: spec_fn(Seq<char>) -> int| #[trigger]
                coef(r.denom, k) == coef(x.denom, k) by {
                assert(coef(r.denom, k) == coef(y.denom, k));
                assert(coef(x.denom, k) == coef(y.denom, k));
            }
        }
        lemma_conv_right(x.numer, r.denom, x.denom, e);
        // r.numer * x.denom is -(x.numer * x.denom)
        assert(same_polynomial(r.numer, negation(x.numer))) by {
            assert forall|k: spec_fn(Seq<char>) -> int| #[trigger]
                coef(r.numer, k) == coef(negation(x.numer), k) by {
                lemma_negation_coef(x.numer, k);
                lemma_negation_coef(y.numer, k);
                assert(coef(r.numer, k) == coef(negation(y.numer), k));
                assert(coef(x.numer, k) == coef(y.numer, k));
            }
        }
        lemma_conv_left(r.numer, negation(x.numer), x.denom, e);
        lemma_conv_negation(x.numer, x.denom, e);
    }
}

/// A step of a sum depends on the fraction that is added through its
/// polynomials only.
pub proof fn lemma_add_step_same_value(acc: SemFraction, r: SemFraction, r2: SemFraction, ty: Type)
    requires
        same_fraction(r, r2),
    ensures
        same_fraction(add_step(acc, r, ty), add_step(acc, r2, ty)),
{
    assert(same_polynomial(signed(r.numer, ty), signed(r2.numer, ty))) by {
        assert forall|e: spec_fn(Seq<char>) -> int| #[trigger]
            coef(signed(r.numer, ty), e) == coef(signed(r2.numer, ty), e) by {
            lemma_negation_coef(r.numer, e);
            lemma_negation_coef(r2.numer, e);
            assert(coef(r.numer, e) == coef(r2.numer, e));
        }
    }
    assert forall|e: spec_fn(Seq<char>) -> int| #[trigger]
        coef(add_step(acc, r, ty).numer, e) == coef(add_step(acc, r2, ty).numer, e) by {
        lemma_add_step_coef(acc, r, ty, e);
        lemma_add_step_coef(acc, r2, ty, e);
        lemma_conv_right(acc.numer, r.denom, r2.denom, e);
        lemma_conv_left(signed(r.numer, ty), signed(r2.numer, ty), acc.denom, e);
    }
    assert forall|e: spec_fn(Seq<char>) -> int| #[trigger]
        coef(add_step(acc, r, ty).denom, e) == coef(add_step(acc, r2, ty).denom, e) by {
        lemma_add_step_coef(acc, r, ty, e);
        lemma_add_step_coef(acc, r2, ty, e);
        lemma_conv_right(acc.denom, r.denom, r2.denom, e);
    }
}

/// The numerator with which a form enters a product: its own, or its
/// denominator where it divides.
pub open spec fn entering_numer(f: Form) -> Seq<SemTerm> {
    match f.ty {
        Type::Positive => f.value.numer,
        Type::Negative => f.value.denom,
    }
}

/// The denominator with which a form enters a product.
pub open spec fn entering_denom(f: Form) -> Seq<SemTerm> {
    match f.ty {
        Type::Positive => f.value.denom,
        Type::Negative => f.value.numer,
    }
}

/// A product so far and one more form. A denominator of one term is
/// divided into the numerator; a longer one is multiplied into the
/// denominator.
pub open spec fn mul_step(acc: SemFraction, f: Form) -> SemFraction {
    let n = entering_numer(f);
    let d = entering_denom(f);
    if d.len() > 1 {
        SemFraction { numer: times(acc.numer, n), denom: times(acc.denom, d) }
    } else {
        SemFraction { numer: divided(times(acc.numer, n), d[0]), denom: acc.denom }
    }
}

/// The product of the forms, taken from left to right, starting from `u`.
pub open spec fn product_of_forms(u: SemFraction, fs: Seq<Form>) -> SemFraction
    decreases fs.len(),
{
    if fs.len() == 0 {
        u
    } else {
        mul_step(product_of_forms(u, fs.drop_last()), fs.last())
    }
}

/// The product of two fractions.
pub open spec fn cross(x: SemFraction, y: SemFraction) -> SemFraction {
    SemFraction { numer: times(x.numer, y.numer), denom: times(x.denom, y.denom) }
}

/// A fraction that stands for one over one.
pub open spec fn is_unit_fraction(u: SemFraction) -> bool {
    same_polynomial(u.numer, unit()) && same_polynomial(u.denom, unit())
}

/// The coefficients after one step of a product.
pub proof fn lemma_mul_step_coef(acc: SemFraction, f: Form, e: spec_fn(Seq<char>) -> int)
    ensures
        entering_denom(f).len() > 1 ==> coef(mul_step(acc, f).numer, e) == conv(
            acc.numer,
            entering_numer(f),
            e,
        ) && coef(mul_step(acc, f).denom, e) == conv(acc.denom, entering_denom(f), e),
        entering_denom(f).len() <= 1 ==> coef(mul_step(acc, f).denom, e) == coef(acc.denom, e)
            && coef(mul_step(acc, f).numer, e) == if entering_denom(f)[0].value == 0real {
            0real
        } else {
            conv(acc.numer, entering_numer(f), unshifted(e, entering_denom(f)[0].factors))
                / entering_denom(f)[0].value
        },
{
    let n = entering_numer(f);
    let d = entering_denom(f);
    if d.len() > 1 {
        lemma_times_coef(acc.numer, n, e);
        lemma_times_coef(acc.denom, d, e);
    } else {
        lemma_divided_coef(times(acc.numer, n), d[0], e);
        lemma_times_coef(acc.numer, n, unshifted(e, d[0].factors));
    }
}

/// A step of a product depends on the product so far through its
/// polynomials only.
pub proof fn lemma_mul_step_same(acc: SemFraction, acc2: SemFraction, f: Form)
    requires
        same_fraction(acc, acc2),
    ensures
        same_fraction(mul_step(acc, f), mul_step(acc2, f)),
{
    let n = entering_numer(f);
    let d = entering_denom(f);
    assert forall|e: spec_fn(Seq<char>) -> int| #[trigger]
        coef(mul_step(acc, f).numer, e) == coef(mul_step(acc2, f).numer, e) by {
        lemma_mul_step_coef(acc, f, e);
        lemma_mul_step_coef(acc2, f, e);
        lemma_conv_left(acc.numer, acc2.numer, n, e);
        if d.len() <= 1 {
            lemma_conv_left(acc.numer, acc2.numer, n, unshifted(e, d[0].factors));
        }
    }
    assert forall|e: spec_fn(Seq<char>) -> int| #[trigger]
        coef(mul_step(acc, f).denom, e) == coef(mul_step(acc2, f).denom, e) by {
        lemma_mul_step_coef(acc, f, e);
        lemma_mul_step_coef(acc2, f, e);
        lemma_conv_left(acc.denom, acc2.denom, d, e);
        assert(coef(acc.denom, e) == coef(acc2.denom, e));
    }
}

/// The product of two lists of forms, one after the other, is the product
/// of their products.
pub proof fn lemma_product_append(u: SemFraction, f: Seq<Form>, g: Seq<Form>)
    requires
        is_unit_fraction(u),
    ensures
        same_fraction(
            product_of_forms(u, f + g),
            cross(product_of_forms(u, f), product_of_forms(u, g)),
        ),
    decreases g.len(),
{
    let x = product_of_forms(u, f);
    if g.len() == 0 {
        assert(f + g =~= f);
        assert forall|e: spec_fn(Seq<char>) -> int| #[trigger]
            coef(x.numer, e) == coef(cross(x, u).numer, e) by {
            lemma_times_coef(x.numer, u.numer, e);
            lemma_conv_right(x.numer, u.numer, unit(), e);
            lemma_conv_unit(x.numer, e);
        }
        assert forall|e: spec_fn(Seq<char>) -> int| #[trigger]
            coef(x.denom, e) == coef(cross(x, u).denom, e) by {
            lemma_times_coef(x.denom, u.denom, e);
            lemma_conv_right(x.denom, u.denom, unit(), e);
            lemma_conv_unit(x.denom, e);
        }
    } else {
        let g0 = g.drop_last();
        let last = g.last();
        let zz = product_of_forms(u, g0);
        let w = product_of_forms(u, f + g0);
        lemma_product_append(u, f, g0);
        assert((f + g).drop_last() =~= f + g0);
        assert((f + g).last() == last);
        let n = entering_numer(last);
        let d = entering_denom(last);
        let target = cross(x, mul_step(zz, last));
        assert forall|e: spec_fn(Seq<char>) -> int| #[trigger]
            coef(mul_step(w, last).numer, e) == coef(target.numer, e) by {
            lemma_mul_step_coef(w, last, e);
            lemma_times_coef(x.numer, mul_step(zz, last).numer, e);
            if d.len() > 1 {
                lemma_conv_left(w.numer, cross(x, zz).numer, n, e);
                lemma_conv_associates(x.numer, zz.numer, n, e);
            } else {
                let k = unshifted(e, d[0].factors);
                lemma_conv_divided(x.numer, times(zz.numer, n), d[0], e);
                lemma_conv_left(w.numer, cross(x, zz).numer, n, k);
                lemma_conv_associates(x.numer, zz.numer, n, k);
            }
        }
        assert forall|e: spec_fn(Seq<char>) -> int| #[trigger]
            coef(mul_step(w, last).denom, e) == coef(target.denom, e) by {
            lemma_mul_step_coef(w, last, e);
            lemma_times_coef(x.denom, mul_step(zz, last).denom, e);
            lemma_times_coef(x.denom, zz.denom, e);
            if d.len() > 1 {
                lemma_conv_left(w.denom, cross(x, zz).denom, d, e);
                lemma_conv_associates(x.denom, zz.denom, d, e);
            } else {
                assert(coef(w.denom, e) == coef(cross(x, zz).denom, e));
            }
        }
    }
}

/// The product of two lists of forms does not depend on which comes first.
pub proof fn lemma_product_swap(u: SemFraction, f: Seq<Form>, g: Seq<Form>)
    requires
        is_unit_fraction(u),
    ensures
        same_fraction(product_of_forms(u, f + g), product_of_forms(u, g + f)),
{
    let x = product_of_forms(u, f);
    let y = product_of_forms(u, g);
    lemma_product_append(u, f, g);
    lemma_product_append(u, g, f);
    assert forall|e: spec_fn(Seq<char>) -> int| #[trigger]
        coef(product_of_forms(u, f + g).numer, e) == coef(product_of_forms(u, g + f).numer, e) by {
        lemma_times_coef(x.numer, y.numer, e);
        lemma_times_coef(y.numer, x.numer, e);
        lemma_conv_commutes(x.numer, y.numer, e);
        assert(coef(product_of_forms(u, f + g).numer, e) == coef(cross(x, y).numer, e));
        assert(coef(product_of_forms(u, g + f).numer, e) == coef(cross(y, x).numer, e));
    }
    assert forall|e: spec_fn(Seq<char>) -> int| #[trigger]
        coef(product_of_forms(u, f + g).denom, e) == coef(product_of_forms(u, g + f).denom, e) by {
        lemma_times_coef(x.denom, y.denom, e);
        lemma_times_coef(y.denom, x.denom, e);
        lemma_conv_commutes(x.denom, y.denom, e);
        assert(coef(product_of_forms(u, f + g).denom, e) == coef(cross(x, y).denom, e));
        assert(coef(product_of_forms(u, g + f).denom, e) == coef(cross(y, x).denom, e));
    }
}

/// Two fractions that are each the same as a third are the same.
pub proof fn lemma_same_fraction_chain(x: SemFraction, y: SemFraction, z: SemFraction)
    requires
        same_fraction(x, y),
        same_fraction(y, z),
    ensures
        same_fraction(x, z),
        same_fraction(z, x),
        same_fraction(y, x),
{
    assert forall|e: spec_fn(Seq<char>) -> int| #[trigger] coef(x.numer, e) == coef(z.numer, e) by {
        assert(coef(x.numer, e) == coef(y.numer, e));
        assert(coef(y.numer, e) == coef(z.numer, e));
    }
    assert forall|e: spec_fn(Seq<char>) -> int| #[trigger] coef(x.denom, e) == coef(z.denom, e) by {
        assert(coef(x.denom, e) == coef(y.denom, e));
        assert(coef(y.denom, e) == coef(z.denom, e));
    }
    assert forall|e: spec_fn(Seq<char>) -> int| #[trigger] coef(z.numer, e) == coef(x.numer, e) by {
        assert(coef(x.numer, e) == coef(z.numer, e));
    }
    assert forall|e: spec_fn(Seq<char>) -> int| #[trigger] coef(z.denom, e) == coef(x.denom, e) by {
        assert(coef(x.denom, e) == coef(z.denom, e));
    }
    assert forall|e: spec_fn(Seq<char>) -> int| #[trigger] coef(y.numer, e) == coef(x.numer, e) by {
        assert(coef(x.numer, e) == coef(y.numer, e));
    }
    assert forall|e: spec_fn(Seq<char>) -> int| #[trigger] coef(y.denom, e) == coef(x.denom, e) by {
        assert(coef(x.denom, e) == coef(y.denom, e));
    }
}

/// The product of fractions depends on them through their polynomials only.
pub proof fn lemma_cross_same(x: SemFraction, x2: SemFraction, y: SemFraction, y2: SemFraction)
    requires
        same_fraction(x, x2),
        same_fraction(y, y2),
    ensures
        same_fraction(cross(x, y), cross(x2, y2)),
{
    assert forall|e: spec_fn(Seq<char>) -> int| #[trigger]
        coef(cross(x, y).numer, e) == coef(cross(x2, y2).numer, e) by {
        lemma_times_coef(x.numer, y.numer, e);
        lemma_times_coef(x2.numer, y2.numer, e);
        lemma_conv_both(x.numer, x2.numer, y.numer, y2.numer, e);
    }
    assert forall|e: spec_fn(Seq<char>) -> int| #[trigger]
        coef(cross(x, y).denom, e) == coef(cross(x2, y2).denom, e) by {
        lemma_times_coef(x.denom, y.denom, e);
        lemma_times_coef(x2.denom, y2.denom, e);
        lemma_conv_both(x.denom, x2.denom, y.denom, y2.denom, e);
    }
}

/// The product with one over one changes nothing.
pub proof fn lemma_cross_unit(u: SemFraction, x: SemFraction)
    requires
        is_unit_fraction(u),
    ensures
        same_fraction(cross(u, x), x),
{
    assert forall|e: spec_fn(Seq<char>) -> int| #[trigger]
        coef(cross(u, x).numer, e) == coef(x.numer, e) by {
        lemma_times_coef(u.numer, x.numer, e);
        lemma_conv_left(u.numer, unit(), x.numer, e);
        lemma_conv_unit(x.numer, e);
    }
    assert forall|e: spec_fn(Seq<char>) -> int| #[trigger]
        coef(cross(u, x).denom, e) == coef(x.denom, e) by {
        lemma_times_coef(u.denom, x.denom, e);
        lemma_conv_left(u.denom, unit(), x.denom, e);
        lemma_conv_unit(x.denom, e);
    }
}

/// Two forms whose product is one can be taken out of a product, wherever
/// they stand in it.
pub proof fn lemma_product_without_pair(
    u: SemFraction,
    k1: Form,
    f: Seq<Form>,
    k2: Form,
    g: Seq<Form>,
)
    requires
        is_unit_fraction(u),
        is_unit_fraction(product_of_forms(u, seq![k1, k2])),
    ensures
        same_fraction(product_of_forms(u, ((seq![k1] + f) + seq![k2]) + g), product_of_forms(u, f + g)),
{
    let a = seq![k1];
    let b = seq![k2];
    let l1 = (a + f) + b;
    // the pair is brought together
    assert(l1 =~= a + (f + b));
    lemma_product_append(u, a, f + b);
    lemma_product_swap(u, f, b);
    let pa = product_of_forms(u, a);
    lemma_cross_same(pa, pa, product_of_forms(u, f + b), product_of_forms(u, b + f));
    lemma_product_append(u, a, b + f);
    assert(a + (b + f) =~= (a + b) + f);
    assert(a + b =~= seq![k1, k2]);
    lemma_product_append(u, a + b, f);
    let pf = product_of_forms(u, f);
    let pg = product_of_forms(u, g);
    let pair = product_of_forms(u, a + b);
    lemma_cross_unit(pair, pf);
    // prod(l1) is prod(f)
    lemma_same_fraction_chain(
        product_of_forms(u, a + (f + b)),
        cross(pa, product_of_forms(u, f + b)),
        cross(pa, product_of_forms(u, b + f)),
    );
    lemma_same_fraction_chain(
        product_of_forms(u, a + (b + f)),
        cross(pa, product_of_forms(u, b + f)),
        product_of_forms(u, a + (f + b)),
    );
    lemma_same_fraction_chain(product_of_forms(u, (a + b) + f), cross(pair, pf), pf);
    lemma_same_fraction_chain(
        product_of_forms(u, l1),
        product_of_forms(u, a + (b + f)),
        pf,
    );
    // and the rest follows
    lemma_product_append(u, l1, g);
    lemma_product_append(u, f, g);
    lemma_cross_same(product_of_forms(u, l1), pf, pg, pg);
    lemma_same_fraction_chain(
        product_of_forms(u, l1 + g),
        cross(product_of_forms(u, l1), pg),
        cross(pf, pg),
    );
    lemma_same_fraction_chain(product_of_forms(u, f + g), cross(pf, pg), product_of_forms(u, l1 + g));
}

/// The product of a polynomial with a single term.
pub proof fn lemma_conv_single(p: Seq<SemTerm>, t: SemTerm, e: spec_fn(Seq<char>) -> int)
    ensures
        conv(p, seq![t], e) == t.value * coef(p, shifted(e, t.factors)),
{
    reveal_with_fuel(conv, 2);
    lemma_conv_commutes(p, seq![t], e);
    assert(seq![t].drop_last().len() == 0);
    assert(seq![t].last() == t);
}

/// A form with a numerator and a denominator of one nonzero term each,
/// multiplied and then divided, leaves one.
pub proof fn lemma_pair_is_unit(u: SemFraction, k: Form)
    requires
        is_unit_fraction(u),
        k.ty == Type::Positive,
        k.value.numer.len() == 1,
        k.value.denom.len() == 1,
        k.value.numer[0].value != 0real,
        k.value.denom[0].value != 0real,
    ensures
        is_unit_fraction(
            product_of_forms(u, seq![k, Form { ty: Type::Negative, value: k.value }]),
        ),
{
    let k2 = Form { ty: Type::Negative, value: k.value };
    let both = seq![k, k2];
    let t1 = k.value.numer[0];
    let t2 = k.value.denom[0];
    assert(k.value.numer =~= seq![t1]);
    assert(k.value.denom =~= seq![t2]);
    assert(both.drop_last() =~= seq![k]);
    assert(both.last() == k2);
    assert(seq![k].drop_last() =~= Seq::<Form>::empty());
    assert(seq![k].last() == k);
    let first = product_of_forms(u, seq![k]);
    assert(product_of_forms(u, seq![k].drop_last()) == u);
    assert(first == mul_step(u, k));
    let second = product_of_forms(u, both);
    assert(second == mul_step(first, k2));
    assert forall|e: spec_fn(Seq<char>) -> int| #[trigger]
        coef(second.numer, e) == coef(unit(), e) by {
        let e1 = unshifted(e, t1.factors);
        let e2 = shifted(e1, t2.factors);
        let e3 = unshifted(e2, t2.factors);
        let e4 = shifted(e3, t1.factors);
        lemma_mul_step_coef(first, k2, e);
        lemma_conv_single(first.numer, t2, e1);
        lemma_mul_step_coef(u, k, e2);
        lemma_conv_single(u.numer, t1, e3);
        assert forall|v: Seq<char>| #[trigger] e4(v) == e(v) by {}
        lemma_coef_ext(u.numer, e4, e);
        assert(coef(u.numer, e) == coef(unit(), e));
        let c = coef(u.numer, e4);
        assert(t2.value * ((t1.value * c) / t2.value) / t1.value == c) by (nonlinear_arith)
            requires
                t1.value != 0real,
                t2.value != 0real,
        ;
    }
    assert forall|e: spec_fn(Seq<char>) -> int| #[trigger]
        coef(second.denom, e) == coef(unit(), e) by {
        lemma_mul_step_coef(first, k2, e);
        lemma_mul_step_coef(u, k, e);
        assert(coef(u.denom, e) == coef(unit(), e));
    }
}

} // verus!
