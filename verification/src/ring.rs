//! Polynomials with real coefficients form a commutative ring: sum and
//! product of lists of terms, and the laws that their coefficients obey.

use crate::coefficients::{
    coef, has_exponents, lemma_coef_concat, lemma_coef_ext, lemma_coef_push, same_polynomial,
    SemTerm,
};
use crate::factor::{exponent_of, FactorModel, lemma_exponent_concat};
use vstd::prelude::*;

verus! {

/// The exponents `e` less those of the product of `fs`.
pub open spec fn shifted(e: spec_fn(Seq<char>) -> int, fs: Seq<FactorModel>) -> spec_fn(
    Seq<char>,
) -> int {
    |v: Seq<char>| e(v) - exponent_of(fs, v)
}

/// The product of two terms.
pub open spec fn term_times(t: SemTerm, u: SemTerm) -> SemTerm {
    SemTerm { value: t.value * u.value, factors: t.factors + u.factors }
}

/// The products of the term `t` with each term of `q`.
pub open spec fn times_term(t: SemTerm, q: Seq<SemTerm>) -> Seq<SemTerm> {
    Seq::new(q.len(), |j: int| term_times(t, q[j]))
}

/// The products of each term of `p` with each term of `q`.
pub open spec fn times(p: Seq<SemTerm>, q: Seq<SemTerm>) -> Seq<SemTerm>
    decreases p.len(),
{
    if p.len() == 0 {
        Seq::empty()
    } else {
        times(p.drop_last(), q) + times_term(p.last(), q)
    }
}

/// Every term negated.
pub open spec fn negation(p: Seq<SemTerm>) -> Seq<SemTerm> {
    Seq::new(p.len(), |i: int| SemTerm { value: -p[i].value, factors: p[i].factors })
}

/// The constant polynomial one.
pub open spec fn unit() -> Seq<SemTerm> {
    seq![SemTerm { value: 1real, factors: Seq::empty() }]
}

/// The coefficient that the product of `p` and `q` gives to the monomial
/// with the exponents `e`: every term of `p` finds in `q` what it lacks.
pub open spec fn conv(p: Seq<SemTerm>, q: Seq<SemTerm>, e: spec_fn(Seq<char>) -> int) -> real
    decreases p.len(),
{
    if p.len() == 0 {
        0real
    } else {
        conv(p.drop_last(), q, e) + p.last().value * coef(q, shifted(e, p.last().factors))
    }
}

/// A product has the exponents `e` exactly when its second part has what
/// the first leaves of them.
pub proof fn lemma_exponents_of_product(
    a: Seq<FactorModel>,
    b: Seq<FactorModel>,
    e: spec_fn(Seq<char>) -> int,
)
    ensures
        has_exponents(a + b, e) <==> has_exponents(b, shifted(e, a)),
{
    let s = shifted(e, a);
    if has_exponents(a + b, e) {
        assert forall|v: Seq<char>| s(v) == #[trigger] exponent_of(b, v) by {
            lemma_exponent_concat(a, b, v);
            assert(e(v) == exponent_of(a + b, v));
        }
    }
    if has_exponents(b, s) {
        assert forall|v: Seq<char>| e(v) == #[trigger] exponent_of(a + b, v) by {
            lemma_exponent_concat(a, b, v);
            assert(s(v) == exponent_of(b, v));
        }
    }
}

/// What is left of `e` after `a` and `b` does not depend on their order.
pub proof fn lemma_exponents_left(
    a: Seq<FactorModel>,
    b: Seq<FactorModel>,
    e: spec_fn(Seq<char>) -> int,
)
    ensures
        has_exponents(a, shifted(e, b)) <==> has_exponents(b, shifted(e, a)),
{
    let sa = shifted(e, a);
    let sb = shifted(e, b);
    if has_exponents(a, sb) {
        assert forall|v: Seq<char>| sa(v) == #[trigger] exponent_of(b, v) by {
            assert(sb(v) == exponent_of(a, v));
        }
    }
    if has_exponents(b, sa) {
        assert forall|v: Seq<char>| sb(v) == #[trigger] exponent_of(a, v) by {
            assert(sa(v) == exponent_of(b, v));
        }
    }
}

/// The coefficients of the products of one term with a list.
pub proof fn lemma_times_term_coef(t: SemTerm, q: Seq<SemTerm>, e: spec_fn(Seq<char>) -> int)
    ensures
        coef(times_term(t, q), e) == t.value * coef(q, shifted(e, t.factors)),
    decreases q.len(),
{
    let s = shifted(e, t.factors);
    if q.len() == 0 {
        assert(times_term(t, q).len() == 0);
        assert(t.value * 0real == 0real) by (nonlinear_arith);
    } else {
        let front = q.drop_last();
        let u = q.last();
        lemma_times_term_coef(t, front, e);
        assert(times_term(t, q).drop_last() =~= times_term(t, front));
        assert(times_term(t, q).last() == term_times(t, u));
        lemma_exponents_of_product(t.factors, u.factors, e);
        let x = coef(front, s);
        let y = if has_exponents(u.factors, s) {
            u.value
        } else {
            0real
        };
        assert(t.value * (x + y) == t.value * x + t.value * y) by (nonlinear_arith);
        assert(t.value * 0real == 0real) by (nonlinear_arith);
    }
}

/// The coefficients of a product.
pub proof fn lemma_times_coef(p: Seq<SemTerm>, q: Seq<SemTerm>, e: spec_fn(Seq<char>) -> int)
    ensures
        coef(times(p, q), e) == conv(p, q, e),
    decreases p.len(),
{
    if p.len() > 0 {
        lemma_times_coef(p.drop_last(), q, e);
        lemma_coef_concat(times(p.drop_last(), q), times_term(p.last(), q), e);
        lemma_times_term_coef(p.last(), q, e);
    }
}

/// A product depends on its second part through the polynomial only.
pub proof fn lemma_conv_right(
    p: Seq<SemTerm>,
    q: Seq<SemTerm>,
    r: Seq<SemTerm>,
    e: spec_fn(Seq<char>) -> int,
)
    requires
        same_polynomial(q, r),
    ensures
        conv(p, q, e) == conv(p, r, e),
    decreases p.len(),
{
    if p.len() > 0 {
        lemma_conv_right(p.drop_last(), q, r, e);
        let s = shifted(e, p.last().factors);
        assert(coef(q, s) == coef(r, s));
    }
}

/// A product distributes over a concatenation in its first part.
pub proof fn lemma_conv_concat(
    p: Seq<SemTerm>,
    r: Seq<SemTerm>,
    q: Seq<SemTerm>,
    e: spec_fn(Seq<char>) -> int,
)
    ensures
        conv(p + r, q, e) == conv(p, q, e) + conv(r, q, e),
    decreases r.len(),
{
    if r.len() == 0 {
        assert(p + r =~= p);
    } else {
        lemma_conv_concat(p, r.drop_last(), q, e);
        assert((p + r).drop_last() =~= p + r.drop_last());
        assert((p + r).last() == r.last());
    }
}

/// One more term in the second part.
pub proof fn lemma_conv_push(
    q: Seq<SemTerm>,
    p: Seq<SemTerm>,
    t: SemTerm,
    e: spec_fn(Seq<char>) -> int,
)
    ensures
        conv(q, p.push(t), e) == conv(q, p, e) + t.value * coef(q, shifted(e, t.factors)),
    decreases q.len(),
{
    let st = shifted(e, t.factors);
    if q.len() == 0 {
        assert(t.value * 0real == 0real) by (nonlinear_arith);
    } else {
        let u = q.last();
        let su = shifted(e, u.factors);
        lemma_conv_push(q.drop_last(), p, t, e);
        lemma_coef_push(p, t, su);
        lemma_exponents_left(t.factors, u.factors, e);
        let x = coef(p, su);
        let hit = has_exponents(t.factors, su);
        let y = if hit {
            t.value
        } else {
            0real
        };
        let z = coef(q.drop_last(), st);
        let w = if hit {
            u.value
        } else {
            0real
        };
        assert(coef(p.push(t), su) == x + y);
        assert(coef(q, st) == z + w);
        assert(u.value * (x + y) == u.value * x + u.value * y) by (nonlinear_arith);
        assert(t.value * (z + w) == t.value * z + t.value * w) by (nonlinear_arith);
        assert(u.value * y == t.value * w) by (nonlinear_arith)
            requires
                y == if hit {
                    t.value
                } else {
                    0real
                },
                w == if hit {
                    u.value
                } else {
                    0real
                },
        ;
    }
}

/// A product with the empty list is zero.
pub proof fn lemma_conv_empty(q: Seq<SemTerm>, e: spec_fn(Seq<char>) -> int)
    ensures
        conv(q, Seq::<SemTerm>::empty(), e) == 0real,
    decreases q.len(),
{
    if q.len() > 0 {
        lemma_conv_empty(q.drop_last(), e);
        let s = shifted(e, q.last().factors);
        assert(coef(Seq::<SemTerm>::empty(), s) == 0real);
        assert(q.last().value * 0real == 0real) by (nonlinear_arith);
    }
}

/// The product does not depend on the order of its parts.
pub proof fn lemma_conv_commutes(p: Seq<SemTerm>, q: Seq<SemTerm>, e: spec_fn(Seq<char>) -> int)
    ensures
        conv(p, q, e) == conv(q, p, e),
    decreases p.len(),
{
    if p.len() == 0 {
        assert(p =~= Seq::<SemTerm>::empty());
        lemma_conv_empty(q, e);
    } else {
        lemma_conv_commutes(p.drop_last(), q, e);
        lemma_conv_push(q, p.drop_last(), p.last(), e);
        assert(p.drop_last().push(p.last()) =~= p);
    }
}

/// A product depends on its first part through the polynomial only.
pub proof fn lemma_conv_left(
    p: Seq<SemTerm>,
    r: Seq<SemTerm>,
    q: Seq<SemTerm>,
    e: spec_fn(Seq<char>) -> int,
)
    requires
        same_polynomial(p, r),
    ensures
        conv(p, q, e) == conv(r, q, e),
{
    lemma_conv_commutes(p, q, e);
    lemma_conv_commutes(r, q, e);
    lemma_conv_right(q, p, r, e);
}

/// A product depends on both parts through the polynomials only.
pub proof fn lemma_conv_both(
    p: Seq<SemTerm>,
    pp: Seq<SemTerm>,
    q: Seq<SemTerm>,
    qq: Seq<SemTerm>,
    e: spec_fn(Seq<char>) -> int,
)
    requires
        same_polynomial(p, pp),
        same_polynomial(q, qq),
    ensures
        conv(p, q, e) == conv(pp, qq, e),
{
    lemma_conv_left(p, pp, q, e);
    lemma_conv_right(pp, q, qq, e);
}

/// Taking away two products takes away what they leave in either order.
pub proof fn lemma_shift_twice(
    c: Seq<SemTerm>,
    a: Seq<FactorModel>,
    b: Seq<FactorModel>,
    e: spec_fn(Seq<char>) -> int,
)
    ensures
        coef(c, shifted(e, a + b)) == coef(c, shifted(shifted(e, a), b)),
{
    let s1 = shifted(e, a + b);
    let s2 = shifted(shifted(e, a), b);
    assert forall|v: Seq<char>| #[trigger] s1(v) == s2(v) by {
        lemma_exponent_concat(a, b, v);
    }
    lemma_coef_ext(c, s1, s2);
}

/// The product of one term with a product.
pub proof fn lemma_conv_times_term(
    x: SemTerm,
    b: Seq<SemTerm>,
    c: Seq<SemTerm>,
    e: spec_fn(Seq<char>) -> int,
)
    ensures
        conv(times_term(x, b), c, e) == x.value * conv(b, c, shifted(e, x.factors)),
    decreases b.len(),
{
    let s = shifted(e, x.factors);
    if b.len() == 0 {
        assert(times_term(x, b).len() == 0);
        assert(x.value * 0real == 0real) by (nonlinear_arith);
    } else {
        let front = b.drop_last();
        let y = b.last();
        lemma_conv_times_term(x, front, c, e);
        assert(times_term(x, b).drop_last() =~= times_term(x, front));
        assert(times_term(x, b).last() == term_times(x, y));
        lemma_shift_twice(c, x.factors, y.factors, e);
        let k = coef(c, shifted(s, y.factors));
        let rest = conv(front, c, s);
        assert(x.value * (rest + y.value * k) == x.value * rest + (x.value * y.value) * k)
            by (nonlinear_arith);
    }
}

/// The product of three polynomials does not depend on the grouping.
pub proof fn lemma_conv_associates(
    a: Seq<SemTerm>,
    b: Seq<SemTerm>,
    c: Seq<SemTerm>,
    e: spec_fn(Seq<char>) -> int,
)
    ensures
        conv(times(a, b), c, e) == conv(a, times(b, c), e),
    decreases a.len(),
{
    if a.len() > 0 {
        let x = a.last();
        lemma_conv_associates(a.drop_last(), b, c, e);
        lemma_conv_concat(times(a.drop_last(), b), times_term(x, b), c, e);
        lemma_conv_times_term(x, b, c, e);
        lemma_times_coef(b, c, shifted(e, x.factors));
    }
}

/// The coefficients of a negation.
pub proof fn lemma_negation_coef(p: Seq<SemTerm>, e: spec_fn(Seq<char>) -> int)
    ensures
        coef(negation(p), e) == -coef(p, e),
    decreases p.len(),
{
    if p.len() == 0 {
        assert(negation(p).len() == 0);
    } else {
        lemma_negation_coef(p.drop_last(), e);
        assert(negation(p).drop_last() =~= negation(p.drop_last()));
        assert(negation(p).last().value == -p.last().value);
        assert(negation(p).last().factors == p.last().factors);
    }
}

/// The product with a negation is the negation of the product.
pub proof fn lemma_conv_negation(p: Seq<SemTerm>, q: Seq<SemTerm>, e: spec_fn(Seq<char>) -> int)
    ensures
        conv(negation(p), q, e) == -conv(p, q, e),
    decreases p.len(),
{
    if p.len() == 0 {
        assert(negation(p).len() == 0);
    } else {
        lemma_conv_negation(p.drop_last(), q, e);
        assert(negation(p).drop_last() =~= negation(p.drop_last()));
        assert(negation(p).last().value == -p.last().value);
        assert(negation(p).last().factors == p.last().factors);
        let k = coef(q, shifted(e, p.last().factors));
        assert((-p.last().value) * k == -(p.last().value * k)) by (nonlinear_arith);
    }
}

/// One is the unit of the product.
pub proof fn lemma_conv_unit(q: Seq<SemTerm>, e: spec_fn(Seq<char>) -> int)
    ensures
        conv(unit(), q, e) == coef(q, e),
        conv(q, unit(), e) == coef(q, e),
{
    reveal_with_fuel(conv, 2);
    let none = Seq::<FactorModel>::empty();
    let s = shifted(e, none);
    assert(unit().drop_last().len() == 0);
    assert(unit().last().factors == none);
    assert forall|v: Seq<char>| #[trigger] s(v) == e(v) by {
        assert(exponent_of(none, v) == 0);
    }
    lemma_coef_ext(q, s, e);
    assert(1real * coef(q, s) == coef(q, s)) by (nonlinear_arith);
    lemma_conv_commutes(q, unit(), e);
}

/// A polynomial that stands for zero makes every product zero.
pub proof fn lemma_conv_zero(p: Seq<SemTerm>, q: Seq<SemTerm>, e: spec_fn(Seq<char>) -> int)
    requires
        forall|x: spec_fn(Seq<char>) -> int| #[trigger] coef(p, x) == 0real,
    ensures
        conv(p, q, e) == 0real,
        conv(q, p, e) == 0real,
{
    assert(same_polynomial(p, Seq::<SemTerm>::empty())) by {
        assert forall|x: spec_fn(Seq<char>) -> int| #[trigger]
            coef(p, x) == coef(Seq::<SemTerm>::empty(), x) by {}
    }
    lemma_conv_right(q, p, Seq::<SemTerm>::empty(), e);
    lemma_conv_empty(q, e);
    lemma_conv_commutes(p, q, e);
}

/// The exponents `e` and those of the product of `fs` together.
pub open spec fn unshifted(e: spec_fn(Seq<char>) -> int, fs: Seq<FactorModel>) -> spec_fn(
    Seq<char>,
) -> int {
    |v: Seq<char>| e(v) + exponent_of(fs, v)
}

/// The factors with every exponent negated.
pub open spec fn inverse_factors(fs: Seq<FactorModel>) -> Seq<FactorModel> {
    Seq::new(fs.len(), |i: int| FactorModel { base: fs[i].base, exponent: -fs[i].exponent })
}

/// Every term divided by the term `t`.
pub open spec fn over_term(p: Seq<SemTerm>, t: SemTerm) -> Seq<SemTerm> {
    Seq::new(
        p.len(),
        |i: int|
            SemTerm {
                value: p[i].value / t.value,
                factors: p[i].factors + inverse_factors(t.factors),
            },
    )
}

/// Negating every exponent negates the exponent of every variable.
pub proof fn lemma_inverse_exponent(fs: Seq<FactorModel>, v: Seq<char>)
    ensures
        exponent_of(inverse_factors(fs), v) == -exponent_of(fs, v),
    decreases fs.len(),
{
    if fs.len() == 0 {
        assert(inverse_factors(fs).len() == 0);
    } else {
        lemma_inverse_exponent(fs.drop_last(), v);
        assert(inverse_factors(fs).drop_last() =~= inverse_factors(fs.drop_last()));
        assert(inverse_factors(fs).last().base == fs.last().base);
        assert(inverse_factors(fs).last().exponent == -fs.last().exponent);
    }
}

/// A quotient has the exponents `e` exactly when the dividend has them and
/// those of the divisor together.
pub proof fn lemma_exponents_of_quotient(
    a: Seq<FactorModel>,
    t: Seq<FactorModel>,
    e: spec_fn(Seq<char>) -> int,
)
    ensures
        has_exponents(a + inverse_factors(t), e) <==> has_exponents(a, unshifted(e, t)),
{
    let u = unshifted(e, t);
    let q = a + inverse_factors(t);
    if has_exponents(q, e) {
        assert forall|v: Seq<char>| u(v) == #[trigger] exponent_of(a, v) by {
            lemma_exponent_concat(a, inverse_factors(t), v);
            lemma_inverse_exponent(t, v);
            assert(e(v) == exponent_of(q, v));
        }
    }
    if has_exponents(a, u) {
        assert forall|v: Seq<char>| e(v) == #[trigger] exponent_of(q, v) by {
            lemma_exponent_concat(a, inverse_factors(t), v);
            lemma_inverse_exponent(t, v);
            assert(u(v) == exponent_of(a, v));
        }
    }
}

/// The coefficients of a quotient by a term.
pub proof fn lemma_over_term_coef(p: Seq<SemTerm>, t: SemTerm, e: spec_fn(Seq<char>) -> int)
    requires
        t.value != 0real,
    ensures
        coef(over_term(p, t), e) == coef(p, unshifted(e, t.factors)) / t.value,
    decreases p.len(),
{
    let u = unshifted(e, t.factors);
    if p.len() == 0 {
        assert(over_term(p, t).len() == 0);
        assert(0real / t.value == 0real) by (nonlinear_arith)
            requires
                t.value != 0real,
        ;
    } else {
        let front = p.drop_last();
        let x = p.last();
        lemma_over_term_coef(front, t, e);
        assert(over_term(p, t).drop_last() =~= over_term(front, t));
        assert(over_term(p, t).last().value == x.value / t.value);
        assert(over_term(p, t).last().factors == x.factors + inverse_factors(t.factors));
        lemma_exponents_of_quotient(x.factors, t.factors, e);
        let a = coef(front, u);
        let b = if has_exponents(x.factors, u) {
            x.value
        } else {
            0real
        };
        assert((a + b) / t.value == a / t.value + b / t.value) by (nonlinear_arith)
            requires
                t.value != 0real,
        ;
        assert(0real / t.value == 0real) by (nonlinear_arith)
            requires
                t.value != 0real,
        ;
    }
}

/// The quotient of a polynomial by a term; nothing where the term is zero.
pub open spec fn divided(p: Seq<SemTerm>, t: SemTerm) -> Seq<SemTerm> {
    if t.value == 0real {
        Seq::empty()
    } else {
        over_term(p, t)
    }
}

/// Adding exponents and taking some away can be done in either order.
pub proof fn lemma_shift_unshift(
    q: Seq<SemTerm>,
    x: Seq<FactorModel>,
    t: Seq<FactorModel>,
    e: spec_fn(Seq<char>) -> int,
)
    ensures
        coef(q, unshifted(shifted(e, x), t)) == coef(q, shifted(unshifted(e, t), x)),
{
    let a = unshifted(shifted(e, x), t);
    let b = shifted(unshifted(e, t), x);
    assert forall|v: Seq<char>| #[trigger] a(v) == b(v) by {}
    lemma_coef_ext(q, a, b);
}

/// The product with a quotient by a term is the quotient of the product.
pub proof fn lemma_conv_over_term(
    a: Seq<SemTerm>,
    q: Seq<SemTerm>,
    t: SemTerm,
    e: spec_fn(Seq<char>) -> int,
)
    requires
        t.value != 0real,
    ensures
        conv(a, over_term(q, t), e) == conv(a, q, unshifted(e, t.factors)) / t.value,
    decreases a.len(),
{
    let u = unshifted(e, t.factors);
    if a.len() == 0 {
        assert(0real / t.value == 0real) by (nonlinear_arith)
            requires
                t.value != 0real,
        ;
    } else {
        let x = a.last();
        lemma_conv_over_term(a.drop_last(), q, t, e);
        lemma_over_term_coef(q, t, shifted(e, x.factors));
        lemma_shift_unshift(q, x.factors, t.factors, e);
        let k = coef(q, shifted(u, x.factors));
        let rest = conv(a.drop_last(), q, u);
        assert(rest / t.value + x.value * (k / t.value) == (rest + x.value * k) / t.value)
            by (nonlinear_arith)
            requires
                t.value != 0real,
        ;
    }
}

/// The coefficients of a quotient by a term that may be zero.
pub proof fn lemma_divided_coef(p: Seq<SemTerm>, t: SemTerm, e: spec_fn(Seq<char>) -> int)
    ensures
        coef(divided(p, t), e) == if t.value == 0real {
            0real
        } else {
            coef(p, unshifted(e, t.factors)) / t.value
        },
{
    if t.value != 0real {
        lemma_over_term_coef(p, t, e);
    }
}

/// The product with a quotient by a term that may be zero.
pub proof fn lemma_conv_divided(
    a: Seq<SemTerm>,
    q: Seq<SemTerm>,
    t: SemTerm,
    e: spec_fn(Seq<char>) -> int,
)
    ensures
        conv(a, divided(q, t), e) == if t.value == 0real {
            0real
        } else {
            conv(a, q, unshifted(e, t.factors)) / t.value
        },
{
    if t.value != 0real {
        lemma_conv_over_term(a, q, t, e);
    } else {
        lemma_conv_empty(a, e);
    }
}

} // verus!
