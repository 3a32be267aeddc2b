//! Terms: a rational coefficient times a product of factors.
//!
//! The algebra of single terms (product, quotient) and of lists of terms read
//! as sums (collecting like terms, sum, product, quotient by a term).

use crate::factor::{
    exponents_fit, Factor, FactorModel, is_monomial, normal_form, normalize_factors,
};
use crate::order::{
    lemma_lex_irreflexive, lemma_lex_skip, lemma_lex_total, lemma_lex_transitive,
    lemma_name_lt_properties, lemma_sorted_unique, lex_lt, name_lt, name_precedes, sorted_by,
    strict_order, strict_total_order,
};
use crate::rational::{Fraction, rat_add, rat_div, rat_mul, rat_neg, Rational};
use vstd::prelude::*;

verus! {

/// The order of factors: by base, then by exponent.
pub open spec fn factor_lt(x: FactorModel, y: FactorModel) -> bool {
    name_lt(x.base, y.base) || (x.base == y.base && x.exponent < y.exponent)
}

/// [`factor_lt`] as a function value.
pub open spec fn factor_order() -> spec_fn(FactorModel, FactorModel) -> bool {
    |x: FactorModel, y: FactorModel| factor_lt(x, y)
}

/// The order of factor lists: lexicographic, so that the empty list, which
/// stands for a constant, comes first.
pub open spec fn mono_lt(a: Seq<FactorModel>, b: Seq<FactorModel>) -> bool {
    lex_lt(a, b, factor_order())
}

/// Factors are ordered strictly and totally.
pub proof fn lemma_factor_order()
    ensures
        strict_total_order(factor_order()),
{
    lemma_name_lt_properties();
    assert forall|x: FactorModel, y: FactorModel| x == y || #[trigger] factor_order()(x, y)
        || factor_order()(y, x) by {
        if x.base == y.base && x.exponent == y.exponent {
            assert(x == y);
        }
    }
}

/// Factor lists are ordered strictly and totally.
pub proof fn lemma_mono_lt_properties()
    ensures
        forall|x: Seq<FactorModel>| !#[trigger] mono_lt(x, x),
        forall|x: Seq<FactorModel>, y: Seq<FactorModel>, z: Seq<FactorModel>| #[trigger]
            mono_lt(x, y) && #[trigger] mono_lt(y, z) ==> mono_lt(x, z),
        forall|x: Seq<FactorModel>, y: Seq<FactorModel>|
            x == y || #[trigger] mono_lt(x, y) || mono_lt(y, x),
{
    lemma_factor_order();
    assert forall|x: Seq<FactorModel>| !#[trigger] mono_lt(x, x) by {
        lemma_lex_irreflexive(x, factor_order());
    }
    assert forall|x: Seq<FactorModel>, y: Seq<FactorModel>, z: Seq<FactorModel>| #[trigger]
        mono_lt(x, y) && #[trigger] mono_lt(y, z) implies mono_lt(x, z) by {
        lemma_lex_transitive(x, y, z, factor_order());
    }
    assert forall|x: Seq<FactorModel>, y: Seq<FactorModel>|
        x == y || #[trigger] mono_lt(x, y) || mono_lt(y, x) by {
        lemma_lex_total(x, y, factor_order());
    }
}

/// Whether one factor comes before another.
pub fn factor_precedes(a: &Factor, b: &Factor) -> (r: bool)
    ensures
        r == factor_lt(a@, b@),
{
    proof {
        lemma_name_lt_properties();
    }
    if name_precedes(a.base.as_str(), b.base.as_str()) {
        true
    } else if a.base == b.base {
        a.exponent < b.exponent
    } else {
        false
    }
}

/// Whether two factor lists are the same list.
pub fn factors_equal(a: &Vec<Factor>, b: &Vec<Factor>) -> (r: bool)
    ensures
        r == (a.deep_view() == b.deep_view()),
{
    if a.len() != b.len() {
        assert(a.deep_view().len() != b.deep_view().len());
        return false;
    }
    let mut i: usize = 0;
    while i < a.len()
        invariant
            0 <= i <= a.len(),
            a.len() == b.len(),
            forall|j: int| 0 <= j < i ==> a.deep_view()[j] == b.deep_view()[j],
        decreases a.len() - i,
    {
        if !(a[i].base == b[i].base && a[i].exponent == b[i].exponent) {
            assert(a.deep_view()[i as int] != b.deep_view()[i as int]);
            return false;
        }
        i += 1;
    }
    assert(a.deep_view() =~= b.deep_view());
    true
}

/// Whether one factor list comes before another.
pub fn factors_precede(a: &Vec<Factor>, b: &Vec<Factor>) -> (r: bool)
    ensures
        r == mono_lt(a.deep_view(), b.deep_view()),
{
    let ghost av = a.deep_view();
    let ghost bv = b.deep_view();
    let mut i: usize = 0;
    loop
        invariant
            0 <= i <= a.len(),
            i <= b.len(),
            av == a.deep_view(),
            bv == b.deep_view(),
            forall|j: int| 0 <= j < i ==> av[j] == bv[j],
        decreases a.len() - i,
    {
        proof {
            lemma_lex_skip(av, bv, factor_order(), i as int);
        }
        if i >= b.len() {
            return false;
        }
        if i >= a.len() {
            return true;
        }
        assert(av.skip(i as int)[0] == a[i as int]@);
        assert(bv.skip(i as int)[0] == b[i as int]@);
        if !(a[i].base == b[i].base && a[i].exponent == b[i].exponent) {
            return factor_precedes(&a[i], &b[i]);
        }
        i += 1;
    }
}

/// A copy of a factor list.
pub fn clone_factors(fs: &Vec<Factor>) -> (r: Vec<Factor>)
    ensures
        r.deep_view() == fs.deep_view(),
{
    let mut out: Vec<Factor> = Vec::new();
    let mut i: usize = 0;
    while i < fs.len()
        invariant
            0 <= i <= fs.len(),
            out.len() == i,
            forall|j: int| 0 <= j < i ==> out.deep_view()[j] == fs.deep_view()[j],
        decreases fs.len() - i,
    {
        let f = fs[i].clone();
        out.push(f);
        i += 1;
    }
    assert(out.deep_view() =~= fs.deep_view());
    out
}

/// A term: a rational coefficient times a product of factors.
#[derive(Debug, PartialEq, Eq)]
pub struct CanonicalTerm {
    pub coef: Rational,
    pub factors: Vec<Factor>,
}

/// The mathematical view of a [`CanonicalTerm`].
pub struct TermModel {
    pub coef: Fraction,
    pub factors: Seq<FactorModel>,
}

impl View for CanonicalTerm {
    type V = TermModel;

    open spec fn view(&self) -> TermModel {
        TermModel { coef: self.coef@, factors: self.factors.deep_view() }
    }
}

impl DeepView for CanonicalTerm {
    type V = TermModel;

    open spec fn deep_view(&self) -> TermModel {
        self@
    }
}

impl Clone for CanonicalTerm {
    fn clone(&self) -> (r: Self)
        ensures
            r@ == self@,
    {
        CanonicalTerm { coef: self.coef, factors: clone_factors(&self.factors) }
    }
}

impl TermModel {
    /// The constant term `n`.
    pub open spec fn constant(n: int) -> TermModel {
        TermModel { coef: Fraction::from_int(n), factors: Seq::empty() }
    }

    /// The term `n * v`.
    pub open spec fn variable(n: int, v: Seq<char>) -> TermModel {
        TermModel {
            coef: Fraction::from_int(n),
            factors: seq![FactorModel { base: v, exponent: 1 }],
        }
    }

    /// The term has no variable: every exponent is zero.
    pub open spec fn is_constant(self) -> bool {
        forall|i: int| 0 <= i < self.factors.len() ==> (#[trigger] self.factors[i]).exponent == 0
    }
}

/// The factors with every exponent negated, or `None` where an exponent has
/// no negation in a machine integer.
pub open spec fn reciprocal_factors(fs: Seq<FactorModel>) -> Option<Seq<FactorModel>> {
    if forall|i: int| 0 <= i < fs.len() ==> (#[trigger] fs[i]).exponent != isize::MIN {
        Some(Seq::new(fs.len(), |i: int| FactorModel { base: fs[i].base, exponent: -fs[i].exponent }))
    } else {
        None
    }
}

/// The product of two terms: coefficients multiplied, factor lists joined and
/// brought to their monomial. `None` on overflow.
pub open spec fn term_mul(a: TermModel, b: TermModel) -> Option<TermModel> {
    match (rat_mul(a.coef, b.coef), normal_form(a.factors + b.factors)) {
        (Some(c), Some(m)) => Some(TermModel { coef: c, factors: m }),
        _ => None,
    }
}

/// The quotient of two terms: coefficients divided, the divisor's exponents
/// negated. `None` on overflow and for a divisor with coefficient zero.
pub open spec fn term_div(a: TermModel, b: TermModel) -> Option<TermModel> {
    match (rat_div(a.coef, b.coef), reciprocal_factors(b.factors)) {
        (Some(c), Some(r)) => match normal_form(a.factors + r) {
            Some(m) => Some(TermModel { coef: c, factors: m }),
            None => None,
        },
        _ => None,
    }
}

/// The term with its coefficient negated.
pub open spec fn term_neg(a: TermModel) -> Option<TermModel> {
    match rat_neg(a.coef) {
        Some(c) => Some(TermModel { coef: c, factors: a.factors }),
        None => None,
    }
}

/// What the coefficients of the terms of one monomial add up to.
pub enum GroupSum {
    /// No term has the monomial.
    Absent,
    /// The sum of the coefficients, added in the order of the list.
    Total(Fraction),
    /// A partial sum overflowed.
    Overflow,
}

/// The sum of the coefficients of those terms whose monomial is `m`, added in
/// the order of the list.
pub open spec fn group_sum(terms: Seq<TermModel>, m: Seq<FactorModel>) -> GroupSum
    decreases terms.len(),
{
    if terms.len() == 0 {
        GroupSum::Absent
    } else {
        let rest = group_sum(terms.drop_last(), m);
        let t = terms.last();
        if normal_form(t.factors) == Some(m) {
            match rest {
                GroupSum::Absent => GroupSum::Total(t.coef),
                GroupSum::Total(c) => match rat_add(c, t.coef) {
                    Some(s) => GroupSum::Total(s),
                    None => GroupSum::Overflow,
                },
                GroupSum::Overflow => GroupSum::Overflow,
            }
        } else {
            rest
        }
    }
}

/// The monomials of `r` strictly ascend.
pub open spec fn terms_ascend(r: Seq<TermModel>) -> bool {
    forall|i: int, j: int|
        0 <= i < j < r.len() ==> mono_lt(#[trigger] r[i].factors, #[trigger] r[j].factors)
}

/// Like terms can be collected without overflow: every factor list has a
/// monomial and no sum of coefficients overflows.
pub open spec fn combinable(terms: Seq<TermModel>) -> bool {
    &&& forall|i: int| 0 <= i < terms.len() ==> exponents_fit((#[trigger] terms[i]).factors)
    &&& forall|m: Seq<FactorModel>| !(#[trigger] group_sum(terms, m) is Overflow)
}

/// `r` is `terms` with like terms collected: one term for each monomial whose
/// coefficients add up to a nonzero total, in ascending order of monomials.
pub open spec fn is_combined(r: Seq<TermModel>, terms: Seq<TermModel>) -> bool {
    &&& terms_ascend(r)
    &&& forall|i: int|
        0 <= i < r.len() ==> {
            &&& is_monomial((#[trigger] r[i]).factors)
            &&& r[i].coef.numer != 0
            &&& group_sum(terms, r[i].factors) == GroupSum::Total(r[i].coef)
        }
    &&& forall|m: Seq<FactorModel>|
        (#[trigger] group_sum(terms, m) matches GroupSum::Total(c) && c.numer != 0) ==> exists|
            i: int,
        |
            0 <= i < r.len() && (#[trigger] r[i]).factors == m
}

/// `terms` with like terms collected, or `None` on overflow.
pub open spec fn combined(terms: Seq<TermModel>) -> Option<Seq<TermModel>> {
    if combinable(terms) && exists|r: Seq<TermModel>| is_combined(r, terms) {
        Some(choose|r: Seq<TermModel>| is_combined(r, terms))
    } else {
        None
    }
}

/// The order of terms by monomial alone, as a function value.
pub open spec fn term_order() -> spec_fn(TermModel, TermModel) -> bool {
    |x: TermModel, y: TermModel| mono_lt(x.factors, y.factors)
}

/// Collecting like terms has one result only.
pub proof fn lemma_combined_unique(a: Seq<TermModel>, b: Seq<TermModel>, terms: Seq<TermModel>)
    requires
        is_combined(a, terms),
        is_combined(b, terms),
    ensures
        a == b,
{
    lemma_mono_lt_properties();
    assert(strict_order(term_order()));
    assert(sorted_by(a, term_order()));
    assert(sorted_by(b, term_order()));
    assert forall|x: TermModel| a.contains(x) <==> b.contains(x) by {
        if a.contains(x) {
            let i = choose|i: int| 0 <= i < a.len() && a[i] == x;
            assert(group_sum(terms, a[i].factors) == GroupSum::Total(x.coef));
            let j = choose|j: int| 0 <= j < b.len() && (#[trigger] b[j]).factors == x.factors;
            assert(b[j] == x);
        }
        if b.contains(x) {
            let i = choose|i: int| 0 <= i < b.len() && b[i] == x;
            assert(group_sum(terms, b[i].factors) == GroupSum::Total(x.coef));
            let j = choose|j: int| 0 <= j < a.len() && (#[trigger] a[j]).factors == x.factors;
            assert(a[j] == x);
        }
    }
    lemma_sorted_unique(a, b, term_order());
}

/// A list that collects `terms`, where nothing overflows, is what
/// [`combined`] names.
pub proof fn lemma_combined_is(r: Seq<TermModel>, terms: Seq<TermModel>)
    requires
        is_combined(r, terms),
        combinable(terms),
    ensures
        combined(terms) == Some(r),
{
    let c = choose|c: Seq<TermModel>| is_combined(c, terms);
    lemma_combined_unique(r, c, terms);
}

/// An overflow in the sum over a prefix of the list is one in the sum over
/// the whole list.
pub proof fn lemma_overflow_persists(terms: Seq<TermModel>, k: int, m: Seq<FactorModel>)
    requires
        0 <= k <= terms.len(),
        group_sum(terms.take(k), m) is Overflow,
    ensures
        group_sum(terms, m) is Overflow,
    decreases terms.len() - k,
{
    if k < terms.len() {
        assert(terms.take(k + 1).drop_last() =~= terms.take(k));
        lemma_overflow_persists(terms, k + 1, m);
    } else {
        assert(terms.take(k) =~= terms);
    }
}

impl CanonicalTerm {
    /// The constant term `coef`.
    pub fn new(coef: isize) -> (r: CanonicalTerm)
        ensures
            r@ == TermModel::constant(coef as int),
    {
        let r = CanonicalTerm { coef: Rational::from_integer(coef), factors: Vec::new() };
        assert(r@.factors =~= Seq::empty());
        r
    }

    /// The term `coef * var`.
    pub fn with_var(coef: isize, var: String) -> (r: CanonicalTerm)
        ensures
            r@ == TermModel::variable(coef as int, var@),
    {
        let mut factors: Vec<Factor> = Vec::new();
        factors.push(Factor { base: var, exponent: 1 });
        let r = CanonicalTerm { coef: Rational::from_integer(coef), factors };
        assert(r@.factors =~= seq![FactorModel { base: var@, exponent: 1 }]);
        r
    }

    /// Negates the coefficient in place. Where the negation overflows, the
    /// term is left as it was and `false` is returned.
    pub fn neg(&mut self) -> (done: bool)
        ensures
            match term_neg(old(self)@) {
                Some(t) => done && final(self)@ == t,
                None => !done && final(self)@ == old(self)@,
            },
    {
        match self.coef.checked_neg() {
            Some(c) => {
                self.coef = c;
                true
            },
            None => false,
        }
    }

    /// Whether the term has no variable: its factor list is empty or holds
    /// exponents of zero only.
    pub fn is_constant(&self) -> (r: bool)
        ensures
            r == self@.is_constant(),
    {
        let mut i: usize = 0;
        while i < self.factors.len()
            invariant
                0 <= i <= self.factors.len(),
                forall|j: int| 0 <= j < i ==> (#[trigger] self@.factors[j]).exponent == 0,
            decreases self.factors.len() - i,
        {
            if self.factors[i].exponent != 0 {
                assert(self@.factors[i as int].exponent != 0);
                return false;
            }
            i += 1;
        }
        true
    }

    /// The product of two terms.
    pub fn multiply(&self, other: &Self) -> (r: Option<CanonicalTerm>)
        ensures
            match r {
                Some(t) => term_mul(self@, other@) == Some(t@) && is_monomial(t@.factors),
                None => term_mul(self@, other@) is None,
            },
    {
        let coef = match self.coef.checked_mul(&other.coef) {
            Some(c) => c,
            None => {
                return None;
            },
        };
        let mut joined = clone_factors(&self.factors);
        let mut i: usize = 0;
        while i < other.factors.len()
            invariant
                0 <= i <= other.factors.len(),
                joined.deep_view() == self@.factors + other@.factors.take(i as int),
            decreases other.factors.len() - i,
        {
            let ghost before = joined.deep_view();
            let f = other.factors[i].clone();
            joined.push(f);
            assert(joined.deep_view() =~= before.push(other@.factors[i as int]));
            assert(joined.deep_view() =~= self@.factors + other@.factors.take(i as int + 1));
            i += 1;
        }
        assert(other@.factors.take(i as int) =~= other@.factors);
        match normalize_factors(&joined) {
            Some(m) => Some(CanonicalTerm { coef, factors: m }),
            None => None,
        }
    }

    /// The quotient of two terms.
    pub fn divide(&self, other: &Self) -> (r: Option<CanonicalTerm>)
        ensures
            match r {
                Some(t) => term_div(self@, other@) == Some(t@) && is_monomial(t@.factors),
                None => term_div(self@, other@) is None,
            },
    {
        let coef = match self.coef.checked_div(&other.coef) {
            Some(c) => c,
            None => {
                return None;
            },
        };
        let mut joined = clone_factors(&self.factors);
        let mut i: usize = 0;
        while i < other.factors.len()
            invariant
                0 <= i <= other.factors.len(),
                forall|j: int| 0 <= j < i ==> (#[trigger] other@.factors[j]).exponent != isize::MIN,
                joined.deep_view().len() == self@.factors.len() + i,
                forall|j: int|
                    0 <= j < self@.factors.len() ==> joined.deep_view()[j] == self@.factors[j],
                forall|j: int|
                    0 <= j < i ==> #[trigger] joined.deep_view()[self@.factors.len() + j] == (
                    FactorModel {
                        base: other@.factors[j].base,
                        exponent: -other@.factors[j].exponent,
                    }),
            decreases other.factors.len() - i,
        {
            let f = &other.factors[i];
            assert(other@.factors[i as int] == f@);
            if f.exponent == isize::MIN {
                assert(reciprocal_factors(other@.factors) is None);
                return None;
            }
            let ghost before = joined.deep_view();
            let g = Factor { base: f.base.clone(), exponent: -f.exponent };
            let ghost gv = g@;
            joined.push(g);
            assert(joined.deep_view() =~= before.push(gv));
            i += 1;
        }
        proof {
            let rec = reciprocal_factors(other@.factors).unwrap();
            let both = self@.factors + rec;
            assert(rec.len() == other@.factors.len());
            assert(joined.deep_view().len() == both.len());
            assert forall|j: int| 0 <= j < both.len() implies joined.deep_view()[j] == both[j] by {
                if j >= self@.factors.len() {
                    let t = j - self@.factors.len();
                    assert(joined.deep_view()[self@.factors.len() + t] == rec[t]);
                }
            }
            assert(joined.deep_view() =~= both);
        }
        match normalize_factors(&joined) {
            Some(m) => Some(CanonicalTerm { coef, factors: m }),
            None => None,
        }
    }
}

} // verus!
