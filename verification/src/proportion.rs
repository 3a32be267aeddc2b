//! Fractions of polynomials up to a common factor.
//!
//! A product divides a denominator of one term into the numerator at once,
//! so the fraction that an expression brings to a product may be the
//! fraction it is lowered to with one term taken out of both parts. This
//! module relates the two, and shows that sums and products keep the
//! relation.

use crate::coefficients::{
    coef, lemma_coef_concat, lemma_coef_ext, lemma_coef_single, same_polynomial, SemTerm,
    zero_polynomial,
};
use crate::expr::Type;
use crate::folds::{
    cross, Form, is_unit_fraction, join, lemma_conv_single, lemma_mul_step_coef, mul_step,
    same_fraction, SemFraction,
};
use crate::ring::{
    lemma_conv_associates, lemma_conv_both, lemma_conv_commutes, lemma_conv_concat, lemma_conv_unit,
    lemma_times_coef, shifted, times, unit, unshifted,
};
use vstd::prelude::*;

verus! {

/// Two polynomials that are each the same as a third are the same.
pub proof fn lemma_same_chain(p: Seq<SemTerm>, q: Seq<SemTerm>, r: Seq<SemTerm>)
    requires
        same_polynomial(p, q),
        same_polynomial(q, r),
    ensures
        same_polynomial(p, r),
        same_polynomial(r, p),
        same_polynomial(q, p),
{
    assert forall|e: spec_fn(Seq<char>) -> int| #[trigger] coef(p, e) == coef(r, e) by {
        assert(coef(p, e) == coef(q, e));
        assert(coef(q, e) == coef(r, e));
    }
    assert forall|e: spec_fn(Seq<char>) -> int| #[trigger] coef(r, e) == coef(p, e) by {
        assert(coef(p, e) == coef(r, e));
    }
    assert forall|e: spec_fn(Seq<char>) -> int| #[trigger] coef(q, e) == coef(p, e) by {
        assert(coef(p, e) == coef(q, e));
    }
}

/// A product depends on its parts through their polynomials only.
pub proof fn lemma_times_same(p: Seq<SemTerm>, pp: Seq<SemTerm>, q: Seq<SemTerm>, qq: Seq<SemTerm>)
    requires
        same_polynomial(p, pp),
        same_polynomial(q, qq),
    ensures
        same_polynomial(times(p, q), times(pp, qq)),
{
    assert forall|e: spec_fn(Seq<char>) -> int| #[trigger]
        coef(times(p, q), e) == coef(times(pp, qq), e) by {
        lemma_times_coef(p, q, e);
        lemma_times_coef(pp, qq, e);
        lemma_conv_both(p, pp, q, qq, e);
    }
}

/// A sum depends on its parts through their polynomials only.
pub proof fn lemma_plus_same(p: Seq<SemTerm>, pp: Seq<SemTerm>, q: Seq<SemTerm>, qq: Seq<SemTerm>)
    requires
        same_polynomial(p, pp),
        same_polynomial(q, qq),
    ensures
        same_polynomial(p + q, pp + qq),
{
    assert forall|e: spec_fn(Seq<char>) -> int| #[trigger] coef(p + q, e) == coef(pp + qq, e) by {
        lemma_coef_concat(p, q, e);
        lemma_coef_concat(pp, qq, e);
        assert(coef(p, e) == coef(pp, e));
        assert(coef(q, e) == coef(qq, e));
    }
}

/// `(p * q) * r` is `p * (q * r)`.
pub proof fn lemma_times_associates(p: Seq<SemTerm>, q: Seq<SemTerm>, r: Seq<SemTerm>)
    ensures
        same_polynomial(times(times(p, q), r), times(p, times(q, r))),
        same_polynomial(times(p, times(q, r)), times(times(p, q), r)),
{
    assert forall|e: spec_fn(Seq<char>) -> int| #[trigger]
        coef(times(times(p, q), r), e) == coef(times(p, times(q, r)), e) by {
        lemma_times_coef(times(p, q), r, e);
        lemma_times_coef(p, times(q, r), e);
        lemma_conv_associates(p, q, r, e);
    }
    lemma_same_chain(times(times(p, q), r), times(p, times(q, r)), times(times(p, q), r));
}

/// `p * q` is `q * p`.
pub proof fn lemma_times_swaps(p: Seq<SemTerm>, q: Seq<SemTerm>)
    ensures
        same_polynomial(times(p, q), times(q, p)),
{
    assert forall|e: spec_fn(Seq<char>) -> int| #[trigger]
        coef(times(p, q), e) == coef(times(q, p), e) by {
        lemma_times_coef(p, q, e);
        lemma_times_coef(q, p, e);
        lemma_conv_commutes(p, q, e);
    }
}

/// One is neutral on either side of a product.
pub proof fn lemma_times_unit(p: Seq<SemTerm>, u: Seq<SemTerm>)
    requires
        same_polynomial(u, unit()),
    ensures
        same_polynomial(times(p, u), p),
        same_polynomial(times(u, p), p),
{
    assert forall|e: spec_fn(Seq<char>) -> int| #[trigger] coef(times(p, u), e) == coef(p, e) by {
        lemma_times_coef(p, u, e);
        lemma_conv_both(p, p, u, unit(), e);
        lemma_conv_unit(p, e);
    }
    assert forall|e: spec_fn(Seq<char>) -> int| #[trigger] coef(times(u, p), e) == coef(p, e) by {
        lemma_times_coef(u, p, e);
        lemma_conv_both(u, unit(), p, p, e);
        lemma_conv_unit(p, e);
    }
}

/// A product distributes over a sum, on either side.
pub proof fn lemma_times_distributes(p: Seq<SemTerm>, q: Seq<SemTerm>, r: Seq<SemTerm>)
    ensures
        same_polynomial(times(p + q, r), times(p, r) + times(q, r)),
        same_polynomial(times(r, p + q), times(r, p) + times(r, q)),
{
    assert forall|e: spec_fn(Seq<char>) -> int| #[trigger]
        coef(times(p + q, r), e) == coef(times(p, r) + times(q, r), e) by {
        lemma_times_coef(p + q, r, e);
        lemma_times_coef(p, r, e);
        lemma_times_coef(q, r, e);
        lemma_coef_concat(times(p, r), times(q, r), e);
        lemma_conv_concat(p, q, r, e);
    }
    assert forall|e: spec_fn(Seq<char>) -> int| #[trigger]
        coef(times(r, p + q), e) == coef(times(r, p) + times(r, q), e) by {
        lemma_times_coef(r, p + q, e);
        lemma_times_coef(r, p, e);
        lemma_times_coef(r, q, e);
        lemma_coef_concat(times(r, p), times(r, q), e);
        lemma_conv_concat(p, q, r, e);
        lemma_conv_commutes(r, p + q, e);
        lemma_conv_commutes(r, p, e);
        lemma_conv_commutes(r, q, e);
    }
}

/// `(p * q) * r` is `(p * r) * q`.
pub proof fn lemma_times_rotates(p: Seq<SemTerm>, q: Seq<SemTerm>, r: Seq<SemTerm>)
    ensures
        same_polynomial(times(times(p, q), r), times(times(p, r), q)),
{
    lemma_times_associates(p, q, r);
    lemma_times_swaps(q, r);
    lemma_times_same(p, p, times(q, r), times(r, q));
    lemma_times_associates(p, r, q);
    lemma_same_chain(times(times(p, q), r), times(p, times(q, r)), times(p, times(r, q)));
    lemma_same_chain(times(times(p, q), r), times(p, times(r, q)), times(times(p, r), q));
}

/// `(p * q) * (r * s)` is `(p * r) * (q * s)`.
pub proof fn lemma_interchange(
    p: Seq<SemTerm>,
    q: Seq<SemTerm>,
    r: Seq<SemTerm>,
    s: Seq<SemTerm>,
)
    ensures
        same_polynomial(times(times(p, q), times(r, s)), times(times(p, r), times(q, s))),
{
    let pq = times(p, q);
    let pr = times(p, r);
    // (pq)(rs) is ((pq)r)s is ((pr)q)s is (pr)(qs)
    lemma_times_associates(pq, r, s);
    lemma_times_rotates(p, q, r);
    lemma_times_same(times(pq, r), times(pr, q), s, s);
    lemma_times_associates(pr, q, s);
    lemma_same_chain(times(pq, times(r, s)), times(times(pq, r), s), times(times(pr, q), s));
    lemma_same_chain(times(pq, times(r, s)), times(times(pr, q), s), times(pr, times(q, s)));
}

/// A polynomial of one term with a coefficient other than zero.
pub open spec fn is_unit_term(m: Seq<SemTerm>) -> bool {
    m.len() == 1 && m[0].value != 0real
}

/// The product of two polynomials of one term is one of one term.
pub proof fn lemma_unit_terms_multiply(m: Seq<SemTerm>, n: Seq<SemTerm>)
    requires
        is_unit_term(m),
        is_unit_term(n),
    ensures
        is_unit_term(times(m, n)),
{
    reveal_with_fuel(times, 2);
    assert(m.drop_last().len() == 0);
    assert(times(m.drop_last(), n).len() == 0);
    let a = m[0].value;
    let b = n[0].value;
    assert(a * b != 0real) by (nonlinear_arith)
        requires
            a != 0real,
            b != 0real,
    ;
    assert(times(m, n)[0].value == a * b);
}

/// A common factor of one term can be taken out of both sides.
pub proof fn lemma_cancel(p: Seq<SemTerm>, q: Seq<SemTerm>, m: Seq<SemTerm>)
    requires
        is_unit_term(m),
        same_polynomial(times(p, m), times(q, m)),
    ensures
        same_polynomial(p, q),
{
    let t = m[0];
    assert(m =~= seq![t]);
    assert forall|e: spec_fn(Seq<char>) -> int| #[trigger] coef(p, e) == coef(q, e) by {
        let up = unshifted(e, t.factors);
        let back = shifted(up, t.factors);
        lemma_times_coef(p, m, up);
        lemma_times_coef(q, m, up);
        lemma_conv_single(p, t, up);
        lemma_conv_single(q, t, up);
        assert(coef(times(p, m), up) == coef(times(q, m), up));
        assert forall|v: Seq<char>| #[trigger] back(v) == e(v) by {}
        lemma_coef_ext(p, back, e);
        lemma_coef_ext(q, back, e);
        let x = coef(p, e);
        let y = coef(q, e);
        assert(x == y) by (nonlinear_arith)
            requires
                t.value * x == t.value * y,
                t.value != 0real,
        ;
    }
}

/// `x` is `y` with the factor `m` taken out of the numerator and the
/// denominator.
pub open spec fn scaled_by(x: SemFraction, y: SemFraction, m: Seq<SemTerm>) -> bool {
    same_polynomial(times(x.numer, m), y.numer) && same_polynomial(times(x.denom, m), y.denom)
}

/// Every fraction is itself with the factor one taken out.
pub proof fn lemma_scaled_itself(x: SemFraction)
    ensures
        scaled_by(x, x, unit()),
{
    lemma_times_unit(x.numer, unit());
    lemma_times_unit(x.denom, unit());
}

/// The relation depends on the fractions through their polynomials only.
pub proof fn lemma_scaled_same(
    x: SemFraction,
    x2: SemFraction,
    y: SemFraction,
    y2: SemFraction,
    m: Seq<SemTerm>,
)
    requires
        same_fraction(x, x2),
        scaled_by(x2, y2, m),
        same_fraction(y2, y),
    ensures
        scaled_by(x, y, m),
{
    lemma_times_same(x.numer, x2.numer, m, m);
    lemma_times_same(x.denom, x2.denom, m, m);
    lemma_same_chain(times(x.numer, m), times(x2.numer, m), y2.numer);
    lemma_same_chain(times(x.numer, m), y2.numer, y.numer);
    lemma_same_chain(times(x.denom, m), times(x2.denom, m), y2.denom);
    lemma_same_chain(times(x.denom, m), y2.denom, y.denom);
}

/// Products keep the relation, with the product of the factors.
pub proof fn lemma_scaled_cross(
    x: SemFraction,
    y: SemFraction,
    m: Seq<SemTerm>,
    x2: SemFraction,
    y2: SemFraction,
    m2: Seq<SemTerm>,
)
    requires
        scaled_by(x, y, m),
        scaled_by(x2, y2, m2),
    ensures
        scaled_by(cross(x, x2), cross(y, y2), times(m, m2)),
{
    lemma_interchange(x.numer, x2.numer, m, m2);
    lemma_times_same(times(x.numer, m), y.numer, times(x2.numer, m2), y2.numer);
    lemma_same_chain(
        times(times(x.numer, x2.numer), times(m, m2)),
        times(times(x.numer, m), times(x2.numer, m2)),
        times(y.numer, y2.numer),
    );
    lemma_interchange(x.denom, x2.denom, m, m2);
    lemma_times_same(times(x.denom, m), y.denom, times(x2.denom, m2), y2.denom);
    lemma_same_chain(
        times(times(x.denom, x2.denom), times(m, m2)),
        times(times(x.denom, m), times(x2.denom, m2)),
        times(y.denom, y2.denom),
    );
}

/// Sums keep the relation, with the product of the factors.
pub proof fn lemma_scaled_join(
    x: SemFraction,
    y: SemFraction,
    m: Seq<SemTerm>,
    x2: SemFraction,
    y2: SemFraction,
    m2: Seq<SemTerm>,
)
    requires
        scaled_by(x, y, m),
        scaled_by(x2, y2, m2),
    ensures
        scaled_by(join(x, x2), join(y, y2), times(m, m2)),
{
    let mm = times(m, m2);
    let left = times(x.numer, x2.denom);
    let right = times(x2.numer, x.denom);
    // the numerator, part by part
    lemma_times_distributes(left, right, mm);
    lemma_interchange(x.numer, x2.denom, m, m2);
    lemma_times_same(times(x.numer, m), y.numer, times(x2.denom, m2), y2.denom);
    lemma_same_chain(
        times(left, mm),
        times(times(x.numer, m), times(x2.denom, m2)),
        times(y.numer, y2.denom),
    );
    lemma_times_swaps(m, m2);
    lemma_times_same(right, right, mm, times(m2, m));
    lemma_interchange(x2.numer, x.denom, m2, m);
    lemma_times_same(times(x2.numer, m2), y2.numer, times(x.denom, m), y.denom);
    lemma_same_chain(
        times(right, mm),
        times(right, times(m2, m)),
        times(times(x2.numer, m2), times(x.denom, m)),
    );
    lemma_same_chain(
        times(right, mm),
        times(times(x2.numer, m2), times(x.denom, m)),
        times(y2.numer, y.denom),
    );
    lemma_plus_same(
        times(left, mm),
        times(y.numer, y2.denom),
        times(right, mm),
        times(y2.numer, y.denom),
    );
    lemma_same_chain(
        times(left + right, mm),
        times(left, mm) + times(right, mm),
        times(y.numer, y2.denom) + times(y2.numer, y.denom),
    );
    // the denominator
    lemma_interchange(x.denom, x2.denom, m, m2);
    lemma_times_same(times(x.denom, m), y.denom, times(x2.denom, m2), y2.denom);
    lemma_same_chain(
        times(times(x.denom, x2.denom), mm),
        times(times(x.denom, m), times(x2.denom, m2)),
        times(y.denom, y2.denom),
    );
}

/// The sum of two fractions depends on them through their polynomials only.
pub proof fn lemma_join_same(x: SemFraction, x2: SemFraction, y: SemFraction, y2: SemFraction)
    requires
        same_fraction(x, x2),
        same_fraction(y, y2),
    ensures
        same_fraction(join(x, y), join(x2, y2)),
{
    lemma_times_same(x.numer, x2.numer, y.denom, y2.denom);
    lemma_times_same(y.numer, y2.numer, x.denom, x2.denom);
    lemma_plus_same(
        times(x.numer, y.denom),
        times(x2.numer, y2.denom),
        times(y.numer, x.denom),
        times(y2.numer, x2.denom),
    );
    lemma_times_same(x.denom, x2.denom, y.denom, y2.denom);
}

/// Two fractions agree crosswise: the numerator of each times the
/// denominator of the other is the same polynomial.
pub open spec fn same_ratio(x: SemFraction, y: SemFraction) -> bool {
    same_polynomial(times(x.numer, y.denom), times(y.numer, x.denom))
}

/// Fractions that agree crosswise still do after a factor of one term is
/// taken out of each.
pub proof fn lemma_ratio_of_scaled(
    x: SemFraction,
    xs: SemFraction,
    m: Seq<SemTerm>,
    y: SemFraction,
    ys: SemFraction,
    n: Seq<SemTerm>,
)
    requires
        is_unit_term(m),
        is_unit_term(n),
        scaled_by(x, xs, m),
        scaled_by(y, ys, n),
        same_ratio(xs, ys),
    ensures
        same_ratio(x, y),
{
    let mn = times(m, n);
    let lhs = times(x.numer, y.denom);
    let rhs = times(y.numer, x.denom);
    lemma_interchange(x.numer, y.denom, m, n);
    lemma_times_same(times(x.numer, m), xs.numer, times(y.denom, n), ys.denom);
    lemma_same_chain(
        times(lhs, mn),
        times(times(x.numer, m), times(y.denom, n)),
        times(xs.numer, ys.denom),
    );
    lemma_times_swaps(m, n);
    lemma_times_same(rhs, rhs, mn, times(n, m));
    lemma_interchange(y.numer, x.denom, n, m);
    lemma_times_same(times(y.numer, n), ys.numer, times(x.denom, m), xs.denom);
    lemma_same_chain(
        times(rhs, mn),
        times(rhs, times(n, m)),
        times(times(y.numer, n), times(x.denom, m)),
    );
    lemma_same_chain(
        times(rhs, mn),
        times(times(y.numer, n), times(x.denom, m)),
        times(ys.numer, xs.denom),
    );
    lemma_same_chain(times(lhs, mn), times(xs.numer, ys.denom), times(ys.numer, xs.denom));
    lemma_same_chain(times(lhs, mn), times(ys.numer, xs.denom), times(rhs, mn));
    lemma_unit_terms_multiply(m, n);
    lemma_cancel(lhs, rhs, mn);
}

/// The factor that a product takes out of a fraction that enters it: the
/// denominator, where that has one term, and one otherwise.
pub open spec fn factor_out(v: SemFraction) -> Seq<SemTerm> {
    if v.denom.len() > 1 {
        unit()
    } else {
        v.denom
    }
}

/// A polynomial of one term that is not zero has a coefficient other than
/// zero.
pub proof fn lemma_single_not_zero(d: Seq<SemTerm>)
    requires
        d.len() == 1,
        !zero_polynomial(d),
    ensures
        is_unit_term(d),
{
    if d[0].value == 0real {
        assert(d =~= seq![d[0]]);
        assert forall|e: spec_fn(Seq<char>) -> int| #[trigger] coef(d, e) == 0real by {
            lemma_coef_single(d[0], e);
        }
    }
}

/// The empty polynomial is zero.
pub proof fn lemma_empty_is_zero(d: Seq<SemTerm>)
    requires
        d.len() == 0,
    ensures
        zero_polynomial(d),
{
}

/// A fraction that enters a product as it is, with a denominator other
/// than zero, enters it with [`factor_out`] taken out.
pub proof fn lemma_factor_scaled(u: SemFraction, v: SemFraction)
    requires
        is_unit_fraction(u),
        !zero_polynomial(v.denom),
    ensures
        is_unit_term(factor_out(v)),
        scaled_by(mul_step(u, Form { ty: Type::Positive, value: v }), v, factor_out(v)),
{
    let f = Form { ty: Type::Positive, value: v };
    let x = mul_step(u, f);
    let m = factor_out(v);
    if v.denom.len() == 0 {
        lemma_empty_is_zero(v.denom);
    }
    if v.denom.len() > 1 {
        lemma_times_unit(x.numer, unit());
        lemma_times_unit(x.denom, unit());
        lemma_times_unit(v.numer, u.numer);
        lemma_times_unit(v.denom, u.denom);
        lemma_same_chain(times(x.numer, m), x.numer, v.numer);
        lemma_same_chain(times(x.denom, m), x.denom, v.denom);
    } else {
        lemma_single_not_zero(v.denom);
        let t = v.denom[0];
        assert(m =~= seq![t]);
        assert forall|e: spec_fn(Seq<char>) -> int| #[trigger]
            coef(times(x.numer, m), e) == coef(v.numer, e) by {
            let down = shifted(e, t.factors);
            let back = unshifted(down, t.factors);
            lemma_times_coef(x.numer, m, e);
            lemma_conv_single(x.numer, t, e);
            lemma_mul_step_coef(u, f, down);
            lemma_conv_both(u.numer, unit(), v.numer, v.numer, back);
            lemma_conv_unit(v.numer, back);
            assert forall|w: Seq<char>| #[trigger] back(w) == e(w) by {}
            lemma_coef_ext(v.numer, back, e);
            let c = coef(v.numer, e);
            assert(t.value * (c / t.value) == c) by (nonlinear_arith)
                requires
                    t.value != 0real,
            ;
        }
        lemma_times_unit(m, u.denom);
    }
}

/// A product distributes over a sum with one: `a * (b + 1)` and
/// `a * b + a` agree crosswise.
pub proof fn lemma_ratio_distributes(a: SemFraction, b: SemFraction, one: SemFraction)
    requires
        is_unit_fraction(one),
    ensures
        same_ratio(cross(a, join(b, one)), join(cross(a, b), a)),
{
    let x = cross(a, join(b, one));
    let y = join(cross(a, b), a);
    let an = a.numer;
    let ad = a.denom;
    let bn = b.numer;
    let bd = b.denom;
    // x is a.n (b.n + b.d) over a.d b.d
    let s = bn + bd;
    let n = times(an, s);
    let d = times(ad, bd);
    lemma_times_unit(bn, one.denom);
    lemma_times_unit(bd, one.numer);
    lemma_times_unit(bd, one.denom);
    lemma_plus_same(times(bn, one.denom), bn, times(one.numer, bd), bd);
    lemma_times_same(an, an, join(b, one).numer, s);
    lemma_times_same(ad, ad, join(b, one).denom, bd);
    assert(same_polynomial(x.numer, n));
    assert(same_polynomial(x.denom, d));
    // y is (a.n (b.n + b.d)) a.d over (a.d b.d) a.d
    lemma_times_swaps(ad, bd);
    lemma_times_same(an, an, times(ad, bd), times(bd, ad));
    lemma_times_associates(an, bd, ad);
    lemma_same_chain(times(an, times(ad, bd)), times(an, times(bd, ad)), times(times(an, bd), ad));
    lemma_plus_same(
        times(times(an, bn), ad),
        times(times(an, bn), ad),
        times(an, times(ad, bd)),
        times(times(an, bd), ad),
    );
    lemma_times_distributes(times(an, bn), times(an, bd), ad);
    lemma_times_distributes(bn, bd, an);
    lemma_times_same(times(an, bn) + times(an, bd), n, ad, ad);
    lemma_same_chain(
        y.numer,
        times(times(an, bn), ad) + times(times(an, bd), ad),
        times(times(an, bn) + times(an, bd), ad),
    );
    lemma_same_chain(y.numer, times(times(an, bn) + times(an, bd), ad), times(n, ad));
    assert(y.denom == times(d, ad));
    // crosswise: n ((a.d b.d) a.d) is (n a.d) (a.d b.d)
    lemma_times_same(x.numer, n, y.denom, times(d, ad));
    lemma_times_swaps(d, ad);
    lemma_times_same(n, n, times(d, ad), times(ad, d));
    lemma_times_associates(n, ad, d);
    lemma_same_chain(times(x.numer, y.denom), times(n, times(d, ad)), times(n, times(ad, d)));
    lemma_same_chain(times(x.numer, y.denom), times(n, times(ad, d)), times(times(n, ad), d));
    lemma_times_same(y.numer, times(n, ad), x.denom, d);
    lemma_same_chain(times(x.numer, y.denom), times(times(n, ad), d), times(y.numer, x.denom));
}

} // verus!
