//! Lists of terms read as sums: collecting like terms, and the sum, product
//! and quotient built on it.

use crate::coefficients::{coef, lemma_group_member};
use crate::factor::{
    exponent_of, exponents_fit, FactorModel, is_monomial, is_normal_form, lemma_exponent_at,
    lemma_normal_form_of_monomial, normal_form, normalize_factors,
};
use crate::rational::{fits, Fraction, rat_add};
use crate::term::{
    CanonicalTerm, combinable, combined, factors_equal, factors_precede, group_sum, GroupSum,
    is_combined, lemma_combined_is, lemma_mono_lt_properties, lemma_overflow_persists, mono_lt,
    term_div, term_mul, TermModel, terms_ascend,
};
use vstd::prelude::*;

verus! {

/// The products of the term `t` with each term of `b`, in the order of `b`.
pub open spec fn scaled(t: TermModel, b: Seq<TermModel>) -> Option<Seq<TermModel>>
    decreases b.len(),
{
    if b.len() == 0 {
        Some(Seq::empty())
    } else {
        match (scaled(t, b.drop_last()), term_mul(t, b.last())) {
            (Some(x), Some(y)) => Some(x.push(y)),
            _ => None,
        }
    }
}

/// The products of each term of `a` with each term of `b`, row by row.
pub open spec fn products(a: Seq<TermModel>, b: Seq<TermModel>) -> Option<Seq<TermModel>>
    decreases a.len(),
{
    if a.len() == 0 {
        Some(Seq::empty())
    } else {
        match (products(a.drop_last(), b), scaled(a.last(), b)) {
            (Some(x), Some(y)) => Some(x + y),
            _ => None,
        }
    }
}

/// The quotients of each term of `a` by the term `d`.
pub open spec fn quotients(a: Seq<TermModel>, d: TermModel) -> Option<Seq<TermModel>>
    decreases a.len(),
{
    if a.len() == 0 {
        Some(Seq::empty())
    } else {
        match (quotients(a.drop_last(), d), term_div(a.last(), d)) {
            (Some(x), Some(y)) => Some(x.push(y)),
            _ => None,
        }
    }
}

/// The sum of two lists of terms, like terms collected.
pub open spec fn terms_sum(a: Seq<TermModel>, b: Seq<TermModel>) -> Option<Seq<TermModel>> {
    combined(a + b)
}

/// The product of two lists of terms, like terms collected.
pub open spec fn terms_product(a: Seq<TermModel>, b: Seq<TermModel>) -> Option<Seq<TermModel>> {
    match products(a, b) {
        Some(p) => combined(p),
        None => None,
    }
}

/// The quotient of a list of terms by one term, like terms collected.
pub open spec fn terms_quotient(a: Seq<TermModel>, d: TermModel) -> Option<Seq<TermModel>> {
    match quotients(a, d) {
        Some(q) => combined(q),
        None => None,
    }
}

/// What the collecting loop keeps true of its sorted accumulator `acc` after
/// the first `k` terms of `src`.
pub open spec fn collects(acc: Seq<TermModel>, src: Seq<TermModel>, k: int) -> bool {
    &&& terms_ascend(acc)
    &&& forall|i: int|
        0 <= i < acc.len() ==> {
            &&& is_monomial((#[trigger] acc[i]).factors)
            &&& group_sum(src.take(k), acc[i].factors) == GroupSum::Total(acc[i].coef)
        }
    &&& forall|m: Seq<FactorModel>|
        (#[trigger] group_sum(src.take(k), m)) is Absent || exists|i: int|
            0 <= i < acc.len() && (#[trigger] acc[i]).factors == m
    &&& forall|i: int| 0 <= i < k ==> exponents_fit((#[trigger] src[i]).factors)
}

/// One more term, whose monomial `m` the accumulator holds at `p`, with the
/// coefficient there replaced by the sum `c`.
proof fn lemma_collect_merge(
    acc: Seq<TermModel>,
    src: Seq<TermModel>,
    k: int,
    p: int,
    m: Seq<FactorModel>,
    c: Fraction,
)
    requires
        0 <= k < src.len(),
        collects(acc, src, k),
        0 <= p < acc.len(),
        acc[p].factors == m,
        normal_form(src[k].factors) == Some(m),
        exponents_fit(src[k].factors),
        rat_add(acc[p].coef, src[k].coef) == Some(c),
    ensures
        collects(acc.update(p, TermModel { coef: c, factors: m }), src, k + 1),
{
    lemma_mono_lt_properties();
    let now = acc.update(p, TermModel { coef: c, factors: m });
    assert(src.take(k + 1).drop_last() =~= src.take(k));
    assert(src.take(k + 1).last() == src[k]);
    assert forall|i: int, j: int| 0 <= i < j < now.len() implies mono_lt(
        #[trigger] now[i].factors,
        #[trigger] now[j].factors,
    ) by {
        assert(mono_lt(acc[i].factors, acc[j].factors));
    }
    assert forall|i: int| 0 <= i < now.len() implies {
        &&& is_monomial((#[trigger] now[i]).factors)
        &&& group_sum(src.take(k + 1), now[i].factors) == GroupSum::Total(now[i].coef)
    } by {
        assert(is_monomial(acc[i].factors));
        if i != p {
            if i < p {
                assert(mono_lt(acc[i].factors, acc[p].factors));
            } else {
                assert(mono_lt(acc[p].factors, acc[i].factors));
            }
        }
    }
    assert forall|x: Seq<FactorModel>|
        (#[trigger] group_sum(src.take(k + 1), x)) is Absent || exists|i: int|
            0 <= i < now.len() && (#[trigger] now[i]).factors == x by {
        if x == m {
            assert(now[p].factors == x);
        } else if !(group_sum(src.take(k), x) is Absent) {
            let i = choose|i: int| 0 <= i < acc.len() && (#[trigger] acc[i]).factors == x;
            assert(now[i].factors == x);
        }
    }
}

/// One more term, whose monomial `m` the accumulator does not hold, inserted
/// at its place `p`.
proof fn lemma_collect_insert(
    acc: Seq<TermModel>,
    src: Seq<TermModel>,
    k: int,
    p: int,
    m: Seq<FactorModel>,
)
    requires
        0 <= k < src.len(),
        collects(acc, src, k),
        0 <= p <= acc.len(),
        forall|i: int| 0 <= i < p ==> mono_lt((#[trigger] acc[i]).factors, m),
        forall|i: int| p <= i < acc.len() ==> mono_lt(m, (#[trigger] acc[i]).factors),
        normal_form(src[k].factors) == Some(m),
        exponents_fit(src[k].factors),
        is_monomial(m),
    ensures
        collects(acc.insert(p, TermModel { coef: src[k].coef, factors: m }), src, k + 1),
{
    lemma_mono_lt_properties();
    let t = TermModel { coef: src[k].coef, factors: m };
    let now = acc.insert(p, t);
    assert(src.take(k + 1).drop_last() =~= src.take(k));
    assert(src.take(k + 1).last() == src[k]);
    assert forall|i: int, j: int| 0 <= i < j < now.len() implies mono_lt(
        #[trigger] now[i].factors,
        #[trigger] now[j].factors,
    ) by {
        if j < p {
            assert(mono_lt(acc[i].factors, acc[j].factors));
        } else if j == p {
            assert(mono_lt(acc[i].factors, m));
        } else if i < p {
            assert(mono_lt(acc[i].factors, acc[j - 1].factors));
        } else if i == p {
            assert(mono_lt(m, acc[j - 1].factors));
        } else {
            assert(mono_lt(acc[i - 1].factors, acc[j - 1].factors));
        }
    }
    assert(group_sum(src.take(k), m) is Absent) by {
        if !(group_sum(src.take(k), m) is Absent) {
            let i = choose|i: int| 0 <= i < acc.len() && (#[trigger] acc[i]).factors == m;
            if i < p {
                assert(mono_lt(acc[i].factors, m));
            } else {
                assert(mono_lt(m, acc[i].factors));
            }
        }
    }
    assert forall|i: int| 0 <= i < now.len() implies {
        &&& is_monomial((#[trigger] now[i]).factors)
        &&& group_sum(src.take(k + 1), now[i].factors) == GroupSum::Total(now[i].coef)
    } by {
        if i < p {
            assert(now[i] == acc[i]);
            assert(mono_lt(acc[i].factors, m));
        } else if i > p {
            assert(now[i] == acc[i - 1]);
            assert(mono_lt(m, acc[i - 1].factors));
        }
    }
    assert forall|x: Seq<FactorModel>|
        (#[trigger] group_sum(src.take(k + 1), x)) is Absent || exists|i: int|
            0 <= i < now.len() && (#[trigger] now[i]).factors == x by {
        if x == m {
            assert(now[p].factors == x);
        } else if !(group_sum(src.take(k), x) is Absent) {
            let i = choose|i: int| 0 <= i < acc.len() && (#[trigger] acc[i]).factors == x;
            if i < p {
                assert(now[i].factors == x);
            } else {
                assert(now[i + 1].factors == x);
            }
        }
    }
}

/// Dropping the terms with coefficient zero from what the loop has collected
/// of the whole list gives the list with like terms collected.
proof fn lemma_collect_done(acc: Seq<TermModel>, out: Seq<TermModel>, src: Seq<TermModel>)
    requires
        collects(acc, src, src.len() as int),
        terms_ascend(out),
        forall|i: int| 0 <= i < out.len() ==> acc.contains(#[trigger] out[i]) && out[i].coef.numer != 0,
        forall|i: int|
            0 <= i < acc.len() && (#[trigger] acc[i]).coef.numer != 0 ==> out.contains(acc[i]),
    ensures
        combinable(src),
        is_combined(out, src),
        combined(src) == Some(out),
{
    assert(src.take(src.len() as int) =~= src);
    assert forall|m: Seq<FactorModel>| !(#[trigger] group_sum(src, m) is Overflow) by {
        if !(group_sum(src, m) is Absent) {
            let i = choose|i: int| 0 <= i < acc.len() && (#[trigger] acc[i]).factors == m;
            assert(group_sum(src, acc[i].factors) == GroupSum::Total(acc[i].coef));
        }
    }
    assert forall|i: int| 0 <= i < out.len() implies {
        &&& is_monomial((#[trigger] out[i]).factors)
        &&& out[i].coef.numer != 0
        &&& group_sum(src, out[i].factors) == GroupSum::Total(out[i].coef)
    } by {
        assert(acc.contains(out[i]));
        let j = choose|j: int| 0 <= j < acc.len() && acc[j] == out[i];
        assert(is_monomial(acc[j].factors));
    }
    assert forall|m: Seq<FactorModel>|
        (#[trigger] group_sum(src, m) matches GroupSum::Total(c) && c.numer != 0) implies exists|
        i: int,
    |
        0 <= i < out.len() && (#[trigger] out[i]).factors == m by {
        let j = choose|j: int| 0 <= j < acc.len() && (#[trigger] acc[j]).factors == m;
        assert(group_sum(src, acc[j].factors) == GroupSum::Total(acc[j].coef));
        assert(out.contains(acc[j]));
        let i = choose|i: int| 0 <= i < out.len() && out[i] == acc[j];
        assert(out[i].factors == m);
    }
    lemma_combined_is(out, src);
}

/// A product that fails along a prefix of `b` fails along `b`.
proof fn lemma_scaled_prefix(t: TermModel, b: Seq<TermModel>, j: int)
    requires
        0 <= j <= b.len(),
        scaled(t, b.take(j)) is None,
    ensures
        scaled(t, b) is None,
    decreases b.len() - j,
{
    if j < b.len() {
        assert(b.take(j + 1).drop_last() =~= b.take(j));
        lemma_scaled_prefix(t, b, j + 1);
    } else {
        assert(b.take(j) =~= b);
    }
}

/// Products that fail along a prefix of `a` fail along `a`.
proof fn lemma_products_prefix(a: Seq<TermModel>, b: Seq<TermModel>, i: int)
    requires
        0 <= i <= a.len(),
        products(a.take(i), b) is None,
    ensures
        products(a, b) is None,
    decreases a.len() - i,
{
    if i < a.len() {
        assert(a.take(i + 1).drop_last() =~= a.take(i));
        lemma_products_prefix(a, b, i + 1);
    } else {
        assert(a.take(i) =~= a);
    }
}

/// Quotients that fail along a prefix of `a` fail along `a`.
proof fn lemma_quotients_prefix(a: Seq<TermModel>, d: TermModel, i: int)
    requires
        0 <= i <= a.len(),
        quotients(a.take(i), d) is None,
    ensures
        quotients(a, d) is None,
    decreases a.len() - i,
{
    if i < a.len() {
        assert(a.take(i + 1).drop_last() =~= a.take(i));
        lemma_quotients_prefix(a, d, i + 1);
    } else {
        assert(a.take(i) =~= a);
    }
}

/// Neither term comes before the other: the factor lists are the same and
/// the coefficients are equal.
pub open spec fn terms_tie(x: TermModel, y: TermModel) -> bool {
    &&& !mono_lt(x.factors, y.factors)
    &&& !mono_lt(y.factors, x.factors)
    &&& !x.coef.less_than(y.coef)
    &&& !y.coef.less_than(x.coef)
}

/// The first place at which two lists of terms differ, or the length of the
/// shorter one where one begins with the other.
pub fn first_difference(a: &Vec<CanonicalTerm>, b: &Vec<CanonicalTerm>) -> (i: usize)
    ensures
        i <= a.len(),
        i <= b.len(),
        forall|j: int| 0 <= j < i ==> terms_tie(#[trigger] a.deep_view()[j], b.deep_view()[j]),
        i < a.len() && i < b.len() ==> !terms_tie(a.deep_view()[i as int], b.deep_view()[i as int]),
{
    let mut i: usize = 0;
    while i < a.len() && i < b.len()
        invariant
            0 <= i <= a.len(),
            i <= b.len(),
            forall|j: int| 0 <= j < i ==> terms_tie(#[trigger] a.deep_view()[j], b.deep_view()[j]),
        decreases a.len() - i,
    {
        assert(a.deep_view()[i as int] == a[i as int]@);
        assert(b.deep_view()[i as int] == b[i as int]@);
        if !a[i].ties(&b[i]) {
            return i;
        }
        i += 1;
    }
    i
}

/// A copy of a list of terms.
pub fn clone_terms(terms: &Vec<CanonicalTerm>) -> (r: Vec<CanonicalTerm>)
    ensures
        r.deep_view() == terms.deep_view(),
{
    let mut out: Vec<CanonicalTerm> = Vec::new();
    let mut i: usize = 0;
    while i < terms.len()
        invariant
            0 <= i <= terms.len(),
            out.len() == i,
            forall|j: int| 0 <= j < i ==> out.deep_view()[j] == terms.deep_view()[j],
        decreases terms.len() - i,
    {
        let t = terms[i].clone();
        out.push(t);
        i += 1;
    }
    assert(out.deep_view() =~= terms.deep_view());
    out
}

impl CanonicalTerm {
    /// Whether neither term comes before the other.
    pub fn ties(&self, other: &CanonicalTerm) -> (r: bool)
        ensures
            r == terms_tie(self@, other@),
    {
        !factors_precede(&self.factors, &other.factors) && !factors_precede(
            &other.factors,
            &self.factors,
        ) && !self.coef.less_than(&other.coef) && !other.coef.less_than(&self.coef)
    }

    /// The sum of two lists of terms: one list after the other, like terms
    /// collected.
    pub fn sum_terms(terms: &Vec<CanonicalTerm>, other: &Vec<CanonicalTerm>) -> (r: Option<
        Vec<CanonicalTerm>,
    >)
        ensures
            match r {
                Some(out) => terms_sum(terms.deep_view(), other.deep_view()) == Some(
                    out.deep_view(),
                ) && is_combined(out.deep_view(), terms.deep_view() + other.deep_view()),
                None => terms_sum(terms.deep_view(), other.deep_view()) is None,
            },
    {
        let mut joined = clone_terms(terms);
        let mut i: usize = 0;
        while i < other.len()
            invariant
                0 <= i <= other.len(),
                joined.deep_view() == terms.deep_view() + other.deep_view().take(i as int),
            decreases other.len() - i,
        {
            let ghost before = joined.deep_view();
            let t = other[i].clone();
            joined.push(t);
            assert(joined.deep_view() =~= before.push(other.deep_view()[i as int]));
            assert(joined.deep_view() =~= terms.deep_view() + other.deep_view().take(i as int + 1));
            i += 1;
        }
        assert(other.deep_view().take(i as int) =~= other.deep_view());
        CanonicalTerm::combine_like_terms(joined)
    }

    /// The product of two lists of terms: every term of the one times every
    /// term of the other, like terms collected.
    pub fn multiply_terms(terms: &Vec<CanonicalTerm>, other: &Vec<CanonicalTerm>) -> (r: Option<
        Vec<CanonicalTerm>,
    >)
        ensures
            match r {
                Some(out) => terms_product(terms.deep_view(), other.deep_view()) == Some(
                    out.deep_view(),
                ) && products(terms.deep_view(), other.deep_view()) is Some && is_combined(
                    out.deep_view(),
                    products(terms.deep_view(), other.deep_view()).unwrap(),
                ),
                None => terms_product(terms.deep_view(), other.deep_view()) is None,
            },
    {
        let ghost a = terms.deep_view();
        let ghost b = other.deep_view();
        let mut raw: Vec<CanonicalTerm> = Vec::new();
        let mut i: usize = 0;
        assert(a.take(0) =~= Seq::empty());
        while i < terms.len()
            invariant
                0 <= i <= terms.len(),
                a == terms.deep_view(),
                b == other.deep_view(),
                products(a.take(i as int), b) == Some(raw.deep_view()),
            decreases terms.len() - i,
        {
            let ghost rows = raw.deep_view();
            let mut j: usize = 0;
            assert(b.take(0) =~= Seq::empty());
            assert(rows + Seq::<TermModel>::empty() =~= rows);
            assert(a.take(i as int + 1).drop_last() =~= a.take(i as int));
            assert(a.take(i as int + 1).last() == a[i as int]);
            while j < other.len()
                invariant
                    0 <= j <= other.len(),
                    0 <= i < terms.len(),
                    a == terms.deep_view(),
                    b == other.deep_view(),
                    products(a.take(i as int), b) == Some(rows),
                    scaled(a[i as int], b.take(j as int)) is Some,
                    raw.deep_view() == rows + scaled(a[i as int], b.take(j as int)).unwrap(),
                decreases other.len() - j,
            {
                let ghost before = raw.deep_view();
                assert(a[i as int] == terms[i as int]@);
                assert(b[j as int] == other[j as int]@);
                assert(b.take(j as int + 1).drop_last() =~= b.take(j as int));
                assert(b.take(j as int + 1).last() == b[j as int]);
                match terms[i].multiply(&other[j]) {
                    Some(t) => {
                        let ghost tv = t@;
                        raw.push(t);
                        assert(raw.deep_view() =~= before.push(tv));
                        assert(raw.deep_view() =~= rows + scaled(
                            a[i as int],
                            b.take(j as int + 1),
                        ).unwrap());
                    },
                    None => {
                        proof {
                            assert(scaled(a[i as int], b.take(j as int + 1)) is None);
                            lemma_scaled_prefix(a[i as int], b, j as int + 1);
                            assert(products(a.take(i as int + 1), b) is None);
                            lemma_products_prefix(a, b, i as int + 1);
                        }
                        return None;
                    },
                }
                j += 1;
            }
            assert(b.take(j as int) =~= b);
            i += 1;
        }
        assert(a.take(i as int) =~= a);
        CanonicalTerm::combine_like_terms(raw)
    }

    /// The quotient of a list of terms by one term: every term divided, like
    /// terms collected.
    pub fn terms_divide_by_term(terms: &Vec<CanonicalTerm>, dividend: &CanonicalTerm) -> (r:
        Option<Vec<CanonicalTerm>>)
        ensures
            match r {
                Some(out) => terms_quotient(terms.deep_view(), dividend@) == Some(out.deep_view())
                    && quotients(terms.deep_view(), dividend@) is Some && is_combined(
                    out.deep_view(),
                    quotients(terms.deep_view(), dividend@).unwrap(),
                ),
                None => terms_quotient(terms.deep_view(), dividend@) is None,
            },
    {
        let ghost a = terms.deep_view();
        let mut raw: Vec<CanonicalTerm> = Vec::new();
        let mut i: usize = 0;
        assert(a.take(0) =~= Seq::empty());
        while i < terms.len()
            invariant
                0 <= i <= terms.len(),
                a == terms.deep_view(),
                quotients(a.take(i as int), dividend@) == Some(raw.deep_view()),
            decreases terms.len() - i,
        {
            let ghost before = raw.deep_view();
            assert(a[i as int] == terms[i as int]@);
            assert(a.take(i as int + 1).drop_last() =~= a.take(i as int));
            assert(a.take(i as int + 1).last() == a[i as int]);
            match terms[i].divide(dividend) {
                Some(t) => {
                    let ghost tv = t@;
                    raw.push(t);
                    assert(raw.deep_view() =~= before.push(tv));
                },
                None => {
                    proof {
                        assert(quotients(a.take(i as int + 1), dividend@) is None);
                        lemma_quotients_prefix(a, dividend@, i as int + 1);
                    }
                    return None;
                },
            }
            i += 1;
        }
        assert(a.take(i as int) =~= a);
        CanonicalTerm::combine_like_terms(raw)
    }

    /// Collects like terms: every factor list is brought to its monomial, the
    /// coefficients of the terms of one monomial are added in the order of the
    /// list, totals of zero are dropped, and what is left is put in ascending
    /// order of monomials, a constant first. `None` where an exponent or a
    /// sum of coefficients overflows.
    pub fn combine_like_terms(terms: Vec<CanonicalTerm>) -> (r: Option<Vec<CanonicalTerm>>)
        ensures
            match r {
                Some(out) => combined(terms.deep_view()) == Some(out.deep_view()) && is_combined(
                    out.deep_view(),
                    terms.deep_view(),
                ),
                None => combined(terms.deep_view()) is None && !combinable(terms.deep_view()),
            },
    {
        let ghost src = terms.deep_view();
        let mut acc: Vec<CanonicalTerm> = Vec::new();
        let mut k: usize = 0;
        assert(src.take(0) =~= Seq::empty());
        while k < terms.len()
            invariant
                0 <= k <= terms.len(),
                src == terms.deep_view(),
                collects(acc.deep_view(), src, k as int),
            decreases terms.len() - k,
        {
            let t = &terms[k];
            let ghost before = acc.deep_view();
            assert(src[k as int] == t@);
            let mv = match normalize_factors(&t.factors) {
                Some(mv) => mv,
                None => {
                    return None;
                },
            };
            let ghost m = mv.deep_view();
            proof {
                lemma_mono_lt_properties();
            }
            let mut p: usize = 0;
            while p < acc.len() && factors_precede(&acc[p].factors, &mv)
                invariant
                    0 <= p <= acc.len(),
                    m == mv.deep_view(),
                    before == acc.deep_view(),
                    forall|i: int| 0 <= i < p ==> mono_lt((#[trigger] before[i]).factors, m),
                decreases acc.len() - p,
            {
                assert(before[p as int] == acc[p as int]@);
                p += 1;
            }
            proof {
                if p < acc.len() {
                    assert(before[p as int] == acc[p as int]@);
                }
            }
            if p < acc.len() && factors_equal(&acc[p].factors, &mv) {
                match acc[p].coef.checked_add(&t.coef) {
                    None => {
                        proof {
                            assert(src.take(k as int + 1).drop_last() =~= src.take(k as int));
                            assert(src.take(k as int + 1).last() == src[k as int]);
                            assert(group_sum(src.take(k as int + 1), m) is Overflow);
                            lemma_overflow_persists(src, k as int + 1, m);
                        }
                        return None;
                    },
                    Some(c) => {
                        let merged = CanonicalTerm { coef: c, factors: mv };
                        let ghost mt = merged@;
                        acc[p] = merged;
                        proof {
                            assert(acc.deep_view() =~= before.update(p as int, mt));
                            lemma_collect_merge(before, src, k as int, p as int, m, c@);
                        }
                    },
                }
            } else {
                let fresh = CanonicalTerm { coef: t.coef, factors: mv };
                let ghost ft = fresh@;
                acc.insert(p, fresh);
                proof {
                    assert(acc.deep_view() =~= before.insert(p as int, ft));
                    assert forall|i: int| p <= i < before.len() implies mono_lt(
                        m,
                        (#[trigger] before[i]).factors,
                    ) by {
                        assert(!mono_lt(before[p as int].factors, m));
                        assert(before[p as int].factors != m);
                        assert(mono_lt(m, before[p as int].factors));
                        if i > p {
                            assert(mono_lt(before[p as int].factors, before[i].factors));
                        }
                    }
                    lemma_collect_insert(before, src, k as int, p as int, m);
                }
            }
            k += 1;
        }
        let ghost full = acc.deep_view();
        let mut out: Vec<CanonicalTerm> = Vec::new();
        let mut i: usize = 0;
        while i < acc.len()
            invariant
                0 <= i <= acc.len(),
                full == acc.deep_view(),
                terms_ascend(full),
                terms_ascend(out.deep_view()),
                forall|j: int|
                    0 <= j < out.len() ==> full.contains(#[trigger] out.deep_view()[j])
                        && out.deep_view()[j].coef.numer != 0,
                forall|j: int|
                    0 <= j < i && (#[trigger] full[j]).coef.numer != 0 ==> out.deep_view().contains(
                        full[j],
                    ),
                forall|j: int, t: int|
                    0 <= j < out.len() && i <= t < full.len() ==> mono_lt(
                        (#[trigger] out.deep_view()[j]).factors,
                        (#[trigger] full[t]).factors,
                    ),
            decreases acc.len() - i,
        {
            let ghost prev = out.deep_view();
            assert(full[i as int] == acc[i as int]@);
            if !acc[i].coef.is_zero() {
                let kept = acc[i].clone();
                out.push(kept);
                proof {
                    let now = out.deep_view();
                    assert(now =~= prev.push(full[i as int]));
                    assert forall|a: int, b: int| 0 <= a < b < now.len() implies mono_lt(
                        #[trigger] now[a].factors,
                        #[trigger] now[b].factors,
                    ) by {
                        if b < prev.len() {
                            assert(mono_lt(prev[a].factors, prev[b].factors));
                        } else {
                            assert(mono_lt(prev[a].factors, full[i as int].factors));
                        }
                    }
                    assert forall|j: int| 0 <= j < now.len() implies full.contains(#[trigger] now[j])
                        && now[j].coef.numer != 0 by {
                        if j < prev.len() {
                            assert(now[j] == prev[j]);
                        }
                    }
                    assert forall|j: int|
                        0 <= j < i + 1 && (#[trigger] full[j]).coef.numer != 0 implies now.contains(
                        full[j],
                    ) by {
                        if j < i {
                            let w = choose|w: int| 0 <= w < prev.len() && prev[w] == full[j];
                            assert(now[w] == full[j]);
                        } else {
                            assert(now[prev.len() as int] == full[j]);
                        }
                    }
                    assert forall|j: int, t: int|
                        0 <= j < now.len() && i + 1 <= t < full.len() implies mono_lt(
                        (#[trigger] now[j]).factors,
                        (#[trigger] full[t]).factors,
                    ) by {
                        if j < prev.len() {
                            assert(mono_lt(prev[j].factors, full[t].factors));
                        } else {
                            assert(mono_lt(full[i as int].factors, full[t].factors));
                        }
                    }
                }
            }
            i += 1;
        }
        proof {
            lemma_collect_done(full, out.deep_view(), src);
        }
        Some(out)
    }
}

/// The monomial of a collected term is its own normal form.
pub proof fn lemma_collected_is_normal(r: Seq<TermModel>, terms: Seq<TermModel>, i: int)
    requires
        is_combined(r, terms),
        0 <= i < r.len(),
    ensures
        normal_form(r[i].factors) == Some(r[i].factors),
        exponents_fit(r[i].factors),
{
    let m = r[i].factors;
    let k = lemma_group_member(terms, m);
    let fs = terms[k].factors;
    assert(is_normal_form(m, fs));
    assert forall|j: int| 0 <= j < m.len() implies fits((#[trigger] m[j]).exponent) by {
        lemma_exponent_at(m, j);
        assert(fs.take(fs.len() as int) =~= fs);
        assert(fits(exponent_of(fs.take(fs.len() as int), m[j].base)));
    }
    lemma_normal_form_of_monomial(m);
}

/// In a list of collected terms every monomial stands alone: its
/// coefficients add up to the coefficient of its one term.
pub proof fn lemma_group_of_collected(r: Seq<TermModel>, k: int, m: Seq<FactorModel>)
    requires
        terms_ascend(r),
        forall|i: int| 0 <= i < r.len() ==> normal_form(#[trigger] r[i].factors) == Some(r[i].factors),
        0 <= k <= r.len(),
    ensures
        (forall|i: int| 0 <= i < k ==> (#[trigger] r[i]).factors != m) ==> group_sum(r.take(k), m)
            is Absent,
        forall|i: int|
            0 <= i < k && (#[trigger] r[i]).factors == m ==> group_sum(r.take(k), m)
                == GroupSum::Total(r[i].coef),
    decreases k,
{
    lemma_mono_lt_properties();
    if k > 0 {
        lemma_group_of_collected(r, k - 1, m);
        assert(r.take(k).drop_last() =~= r.take(k - 1));
        assert(r.take(k).last() == r[k - 1]);
        assert forall|i: int| 0 <= i < k && (#[trigger] r[i]).factors == m implies group_sum(
            r.take(k),
            m,
        ) == GroupSum::Total(r[i].coef) by {
            if i < k - 1 {
                assert(mono_lt(r[i].factors, r[k - 1].factors));
            } else {
                assert forall|j: int| 0 <= j < k - 1 implies (#[trigger] r[j]).factors != m by {
                    assert(mono_lt(r[j].factors, r[k - 1].factors));
                }
            }
        }
    }
}

} // verus!
