//! Factors and monomials.
//!
//! A factor is a variable raised to an integer exponent. A list of factors
//! stands for their product; its normal form is the monomial: sorted by
//! variable name, each name once, no exponent zero.

use crate::order::{
    lemma_name_lt_properties, lemma_sorted_unique, name_lt, name_precedes, sorted_by, strict_order,
};
use crate::rational::fits;
use vstd::prelude::*;

verus! {

/// A variable raised to an integer exponent.
#[derive(Debug, PartialEq, Eq, Hash)]
pub struct Factor {
    pub base: String,
    pub exponent: isize,
}

/// The mathematical view of a [`Factor`].
pub struct FactorModel {
    pub base: Seq<char>,
    pub exponent: int,
}

impl View for Factor {
    type V = FactorModel;

    open spec fn view(&self) -> FactorModel {
        FactorModel { base: self.base@, exponent: self.exponent as int }
    }
}

impl DeepView for Factor {
    type V = FactorModel;

    open spec fn deep_view(&self) -> FactorModel {
        self@
    }
}

impl Clone for Factor {
    fn clone(&self) -> (r: Self)
        ensures
            r@ == self@,
    {
        Factor { base: self.base.clone(), exponent: self.exponent }
    }
}

impl Factor {
    /// The factor `base ^ exponent`.
    pub fn new(base: &str, exponent: isize) -> (r: Factor)
        ensures
            r@ == (FactorModel { base: base@, exponent: exponent as int }),
    {
        Factor { base: base.to_owned(), exponent }
    }
}

/// The exponent that the product of `fs` gives to the variable `v`.
pub open spec fn exponent_of(fs: Seq<FactorModel>, v: Seq<char>) -> int
    decreases fs.len(),
{
    if fs.len() == 0 {
        0
    } else {
        exponent_of(fs.drop_last(), v) + if fs.last().base == v {
            fs.last().exponent
        } else {
            0
        }
    }
}

/// The bases of `fs` strictly ascend.
pub open spec fn bases_ascend(fs: Seq<FactorModel>) -> bool {
    forall|i: int, j: int| 0 <= i < j < fs.len() ==> name_lt(#[trigger] fs[i].base, #[trigger] fs[j].base)
}

/// `fs` is a monomial: bases strictly ascending, no exponent zero.
pub open spec fn is_monomial(fs: Seq<FactorModel>) -> bool {
    &&& bases_ascend(fs)
    &&& forall|i: int| 0 <= i < fs.len() ==> (#[trigger] fs[i]).exponent != 0
}

/// Every running total of every variable's exponent, taken along `fs`, is a
/// machine integer.
pub open spec fn exponents_fit(fs: Seq<FactorModel>) -> bool {
    forall|k: int, v: Seq<char>| 0 <= k <= fs.len() ==> fits(#[trigger] exponent_of(fs.take(k), v))
}

/// `m` is the monomial that the product of `fs` equals.
pub open spec fn is_normal_form(m: Seq<FactorModel>, fs: Seq<FactorModel>) -> bool {
    &&& is_monomial(m)
    &&& forall|v: Seq<char>| exponent_of(m, v) == exponent_of(fs, v)
}

/// The monomial that the product of `fs` equals, or `None` where a running
/// total of exponents overflows.
pub open spec fn normal_form(fs: Seq<FactorModel>) -> Option<Seq<FactorModel>> {
    if exponents_fit(fs) && exists|m: Seq<FactorModel>| is_normal_form(m, fs) {
        Some(choose|m: Seq<FactorModel>| is_normal_form(m, fs))
    } else {
        None
    }
}

/// The order of factors by base alone, as a function value.
pub open spec fn base_order() -> spec_fn(FactorModel, FactorModel) -> bool {
    |x: FactorModel, y: FactorModel| name_lt(x.base, y.base)
}

/// A variable that does not occur has exponent zero.
pub proof fn lemma_exponent_absent(fs: Seq<FactorModel>, v: Seq<char>)
    requires
        forall|i: int| 0 <= i < fs.len() ==> (#[trigger] fs[i]).base != v,
    ensures
        exponent_of(fs, v) == 0,
    decreases fs.len(),
{
    if fs.len() > 0 {
        assert(fs.last().base != v);
        assert forall|i: int| 0 <= i < fs.drop_last().len() implies (#[trigger] fs.drop_last()[i]).base
            != v by {
            assert(fs[i].base != v);
        }
        lemma_exponent_absent(fs.drop_last(), v);
    }
}

/// The exponent of a product splits at any point of the list.
pub proof fn lemma_exponent_split(fs: Seq<FactorModel>, k: int, v: Seq<char>)
    requires
        0 <= k <= fs.len(),
    ensures
        exponent_of(fs, v) == exponent_of(fs.take(k), v) + exponent_of(fs.skip(k), v),
    decreases fs.len() - k,
{
    if k == fs.len() {
        assert(fs.take(k) =~= fs);
        assert(fs.skip(k).len() == 0);
    } else {
        lemma_exponent_split(fs.drop_last(), k, v);
        assert(fs.drop_last().take(k) =~= fs.take(k));
        assert(fs.drop_last().skip(k) =~= fs.skip(k).drop_last());
        assert(fs.skip(k).last() == fs.last());
    }
}

/// The exponent of a concatenation is the sum of the exponents.
pub proof fn lemma_exponent_concat(a: Seq<FactorModel>, b: Seq<FactorModel>, v: Seq<char>)
    ensures
        exponent_of(a + b, v) == exponent_of(a, v) + exponent_of(b, v),
{
    lemma_exponent_split(a + b, a.len() as int, v);
    assert((a + b).take(a.len() as int) =~= a);
    assert((a + b).skip(a.len() as int) =~= b);
}

/// The exponent of a one-element list.
pub proof fn lemma_exponent_single(f: FactorModel, v: Seq<char>)
    ensures
        exponent_of(seq![f], v) == if f.base == v {
            f.exponent
        } else {
            0
        },
{
    reveal_with_fuel(exponent_of, 2);
    assert(seq![f].drop_last().len() == 0);
    assert(seq![f].last() == f);
}

/// Inserting a factor adds its exponent to its variable.
pub proof fn lemma_exponent_insert(fs: Seq<FactorModel>, p: int, f: FactorModel, v: Seq<char>)
    requires
        0 <= p <= fs.len(),
    ensures
        exponent_of(fs.insert(p, f), v) == exponent_of(fs, v) + if f.base == v {
            f.exponent
        } else {
            0
        },
{
    let g = fs.insert(p, f);
    lemma_exponent_split(fs, p, v);
    lemma_exponent_split(g, p, v);
    assert(g.take(p) =~= fs.take(p));
    assert(g.skip(p) =~= seq![f] + fs.skip(p));
    lemma_exponent_concat(seq![f], fs.skip(p), v);
    lemma_exponent_single(f, v);
}

/// Replacing a factor exchanges its contribution.
pub proof fn lemma_exponent_update(fs: Seq<FactorModel>, p: int, f: FactorModel, v: Seq<char>)
    requires
        0 <= p < fs.len(),
    ensures
        exponent_of(fs.update(p, f), v) == exponent_of(fs, v) - (if fs[p].base == v {
            fs[p].exponent
        } else {
            0
        }) + (if f.base == v {
            f.exponent
        } else {
            0
        }),
{
    let g = fs.update(p, f);
    lemma_exponent_split(fs, p, v);
    lemma_exponent_split(g, p, v);
    assert(g.take(p) =~= fs.take(p));
    assert(fs.skip(p) =~= seq![fs[p]] + fs.skip(p + 1));
    assert(g.skip(p) =~= seq![f] + fs.skip(p + 1));
    lemma_exponent_concat(seq![fs[p]], fs.skip(p + 1), v);
    lemma_exponent_concat(seq![f], fs.skip(p + 1), v);
    lemma_exponent_single(f, v);
    lemma_exponent_single(fs[p], v);
}

/// Where bases ascend, a variable's exponent is that of its one factor.
pub proof fn lemma_exponent_at(fs: Seq<FactorModel>, p: int)
    requires
        bases_ascend(fs),
        0 <= p < fs.len(),
    ensures
        exponent_of(fs, fs[p].base) == fs[p].exponent,
{
    lemma_name_lt_properties();
    let v = fs[p].base;
    lemma_exponent_split(fs, p, v);
    assert(fs.skip(p) =~= seq![fs[p]] + fs.skip(p + 1));
    lemma_exponent_concat(seq![fs[p]], fs.skip(p + 1), v);
    lemma_exponent_single(fs[p], v);
    assert forall|i: int| 0 <= i < fs.take(p).len() implies (#[trigger] fs.take(p)[i]).base != v by {
        assert(name_lt(fs[i].base, fs[p].base));
    }
    assert forall|i: int| 0 <= i < fs.skip(p + 1).len() implies (#[trigger] fs.skip(p + 1)[i]).base
        != v by {
        assert(name_lt(fs[p].base, fs[p + 1 + i].base));
    }
    lemma_exponent_absent(fs.take(p), v);
    lemma_exponent_absent(fs.skip(p + 1), v);
}

/// A variable with a nonzero exponent occurs in the list.
pub proof fn lemma_exponent_present(fs: Seq<FactorModel>, v: Seq<char>) -> (p: int)
    requires
        exponent_of(fs, v) != 0,
    ensures
        0 <= p < fs.len(),
        fs[p].base == v,
{
    if forall|i: int| 0 <= i < fs.len() ==> (#[trigger] fs[i]).base != v {
        lemma_exponent_absent(fs, v);
        0
    } else {
        choose|i: int| 0 <= i < fs.len() && (#[trigger] fs[i]).base == v
    }
}

/// A product has one monomial only.
pub proof fn lemma_monomial_unique(a: Seq<FactorModel>, b: Seq<FactorModel>)
    requires
        is_monomial(a),
        is_monomial(b),
        forall|v: Seq<char>| exponent_of(a, v) == exponent_of(b, v),
    ensures
        a == b,
{
    lemma_name_lt_properties();
    assert(strict_order(base_order()));
    assert(sorted_by(a, base_order()));
    assert(sorted_by(b, base_order()));
    assert forall|x: FactorModel| a.contains(x) <==> b.contains(x) by {
        if a.contains(x) {
            let i = choose|i: int| 0 <= i < a.len() && a[i] == x;
            lemma_exponent_at(a, i);
            let j = lemma_exponent_present(b, x.base);
            lemma_exponent_at(b, j);
            assert(b[j] == x);
        }
        if b.contains(x) {
            let i = choose|i: int| 0 <= i < b.len() && b[i] == x;
            lemma_exponent_at(b, i);
            let j = lemma_exponent_present(a, x.base);
            lemma_exponent_at(a, j);
            assert(a[j] == x);
        }
    }
    lemma_sorted_unique(a, b, base_order());
}

/// A monomial that equals the product of `fs`, whose running totals fit, is
/// its normal form.
pub proof fn lemma_normal_form_is(m: Seq<FactorModel>, fs: Seq<FactorModel>)
    requires
        is_normal_form(m, fs),
        exponents_fit(fs),
    ensures
        normal_form(fs) == Some(m),
{
    let c = choose|c: Seq<FactorModel>| is_normal_form(c, fs);
    lemma_monomial_unique(m, c);
}

/// A monomial is its own normal form.
pub proof fn lemma_normal_form_of_monomial(m: Seq<FactorModel>)
    requires
        is_monomial(m),
        forall|i: int| 0 <= i < m.len() ==> fits((#[trigger] m[i]).exponent),
    ensures
        normal_form(m) == Some(m),
{
    assert forall|k: int, v: Seq<char>| 0 <= k <= m.len() implies fits(
        #[trigger] exponent_of(m.take(k), v),
    ) by {
        let t = m.take(k);
        assert(bases_ascend(t)) by {
            assert forall|i: int, j: int| 0 <= i < j < t.len() implies name_lt(
                #[trigger] t[i].base,
                #[trigger] t[j].base,
            ) by {
                assert(name_lt(m[i].base, m[j].base));
            }
        }
        if exponent_of(t, v) != 0 {
            let p = lemma_exponent_present(t, v);
            lemma_exponent_at(t, p);
            assert(t[p] == m[p]);
        }
    }
    lemma_normal_form_is(m, m);
}

/// Brings a list of factors to its monomial: sorted by variable name, the
/// exponents of a repeated name added up, zero exponents dropped. `None` where
/// a running total of exponents overflows.
pub fn normalize_factors(fs: &Vec<Factor>) -> (r: Option<Vec<Factor>>)
    ensures
        match r {
            Some(m) => normal_form(fs.deep_view()) == Some(m.deep_view()) && is_normal_form(
                m.deep_view(),
                fs.deep_view(),
            ),
            None => normal_form(fs.deep_view()) is None && !exponents_fit(fs.deep_view()),
        },
{
    let ghost src = fs.deep_view();
    let mut acc: Vec<Factor> = Vec::new();
    let mut k: usize = 0;
    proof {
        lemma_name_lt_properties();
    }
    while k < fs.len()
        invariant
            0 <= k <= fs.len(),
            src == fs.deep_view(),
            bases_ascend(acc.deep_view()),
            forall|v: Seq<char>| exponent_of(acc.deep_view(), v) == exponent_of(src.take(k as int), v),
            forall|j: int, v: Seq<char>|
                0 <= j <= k ==> fits(#[trigger] exponent_of(src.take(j), v)),
        decreases fs.len() - k,
    {
        let f = &fs[k];
        let ghost fm = f@;
        let ghost before = acc.deep_view();
        proof {
            lemma_name_lt_properties();
        }
        assert(src[k as int] == fm);
        assert(src.take(k as int + 1).drop_last() =~= src.take(k as int));
        assert(src.take(k as int + 1).last() == fm);
        let mut p: usize = 0;
        while p < acc.len() && name_precedes(acc[p].base.as_str(), f.base.as_str())
            invariant
                0 <= p <= acc.len(),
                fm == f@,
                before == acc.deep_view(),
                forall|i: int| 0 <= i < p ==> name_lt((#[trigger] before[i]).base, fm.base),
            decreases acc.len() - p,
        {
            assert(before[p as int] == acc[p as int]@);
            p += 1;
        }
        proof {
            if p < acc.len() {
                assert(before[p as int] == acc[p as int]@);
            }
        }
        if p < acc.len() && acc[p].base == f.base {
            proof {
                lemma_exponent_at(before, p as int);
            }
            match acc[p].exponent.checked_add(f.exponent) {
                None => {
                    proof {
                        assert(!fits(exponent_of(src.take(k as int + 1), fm.base)));
                        assert(!exponents_fit(src));
                    }
                    return None;
                },
                Some(e) => {
                    let merged = Factor { base: f.base.clone(), exponent: e };
                    let ghost mm = merged@;
                    acc[p] = merged;
                    proof {
                        assert(acc.deep_view() =~= before.update(p as int, mm));
                        assert forall|v: Seq<char>| exponent_of(acc.deep_view(), v) == exponent_of(
                            src.take(k as int + 1),
                            v,
                        ) by {
                            lemma_exponent_update(before, p as int, mm, v);
                        }
                        assert(bases_ascend(acc.deep_view())) by {
                            let now = acc.deep_view();
                            assert forall|i: int, j: int| 0 <= i < j < now.len() implies name_lt(
                                #[trigger] now[i].base,
                                #[trigger] now[j].base,
                            ) by {
                                assert(name_lt(before[i].base, before[j].base));
                            }
                        }
                    }
                },
            }
        } else {
            let fresh = f.clone();
            acc.insert(p, fresh);
            proof {
                assert(acc.deep_view() =~= before.insert(p as int, fm));
                assert forall|v: Seq<char>| exponent_of(acc.deep_view(), v) == exponent_of(
                    src.take(k as int + 1),
                    v,
                ) by {
                    lemma_exponent_insert(before, p as int, fm, v);
                }
                if (p as int) < before.len() {
                    assert(!name_lt(before[p as int].base, fm.base));
                    assert(before[p as int].base != fm.base);
                    assert(name_lt(fm.base, before[p as int].base));
                }
                assert(bases_ascend(acc.deep_view())) by {
                    let now = acc.deep_view();
                    assert forall|i: int, j: int| 0 <= i < j < now.len() implies name_lt(
                        #[trigger] now[i].base,
                        #[trigger] now[j].base,
                    ) by {
                        if j < p {
                            assert(name_lt(before[i].base, before[j].base));
                        } else if j == p {
                            assert(name_lt(before[i].base, fm.base));
                        } else if i < p {
                            assert(name_lt(before[i].base, before[j - 1].base));
                        } else if i == p {
                            if j - 1 > p {
                                assert(name_lt(before[p as int].base, before[j - 1].base));
                            }
                        } else {
                            assert(name_lt(before[i - 1].base, before[j - 1].base));
                        }
                    }
                }
                lemma_exponent_at(acc.deep_view(), p as int);
            }
        }
        proof {
            assert forall|j: int, v: Seq<char>| 0 <= j <= k + 1 implies fits(
                #[trigger] exponent_of(src.take(j), v),
            ) by {
                if j == k + 1 {
                    if exponent_of(acc.deep_view(), v) != 0 {
                        let q = lemma_exponent_present(acc.deep_view(), v);
                        lemma_exponent_at(acc.deep_view(), q);
                    }
                }
            }
        }
        k += 1;
    }
    assert(src.take(k as int) =~= src);
    let ghost full = acc.deep_view();
    let mut out: Vec<Factor> = Vec::new();
    let mut i: usize = 0;
    while i < acc.len()
        invariant
            0 <= i <= acc.len(),
            full == acc.deep_view(),
            bases_ascend(full),
            is_monomial(out.deep_view()),
            forall|v: Seq<char>| exponent_of(out.deep_view(), v) == exponent_of(full.take(i as int), v),
            forall|j: int, t: int|
                0 <= j < out.len() && i <= t < full.len() ==> name_lt(
                    (#[trigger] out.deep_view()[j]).base,
                    (#[trigger] full[t]).base,
                ),
        decreases acc.len() - i,
    {
        let ghost prev = out.deep_view();
        proof {
            lemma_name_lt_properties();
        }
        assert(full.take(i as int + 1).drop_last() =~= full.take(i as int));
        assert(full.take(i as int + 1).last() == full[i as int]);
        assert(full[i as int] == acc[i as int]@);
        if acc[i].exponent != 0 {
            let kept = acc[i].clone();
            out.push(kept);
            proof {
                let now = out.deep_view();
                assert(now =~= prev.push(full[i as int]));
                assert(now.drop_last() =~= prev);
                assert(now.last() == full[i as int]);
                assert forall|v: Seq<char>| exponent_of(now, v) == exponent_of(
                    full.take(i as int + 1),
                    v,
                ) by {
                    assert(exponent_of(prev, v) == exponent_of(full.take(i as int), v));
                    let last = full[i as int];
                    let own = if last.base == v {
                        last.exponent
                    } else {
                        0
                    };
                    let upto = full.take(i as int + 1);
                    assert(exponent_of(now, v) == exponent_of(now.drop_last(), v) + own);
                    assert(exponent_of(upto, v) == exponent_of(upto.drop_last(), v) + own);
                }
                assert forall|a: int, b: int| 0 <= a < b < now.len() implies name_lt(
                    #[trigger] now[a].base,
                    #[trigger] now[b].base,
                ) by {
                    if b < prev.len() {
                        assert(name_lt(prev[a].base, prev[b].base));
                    } else {
                        assert(name_lt(prev[a].base, full[i as int].base));
                    }
                }
                assert forall|j: int, t: int|
                    0 <= j < now.len() && i + 1 <= t < full.len() implies name_lt(
                    (#[trigger] now[j]).base,
                    (#[trigger] full[t]).base,
                ) by {
                    if j < prev.len() {
                        assert(name_lt(prev[j].base, full[t].base));
                    } else {
                        assert(name_lt(full[i as int].base, full[t].base));
                    }
                }
            }
        } else {
            assert forall|v: Seq<char>| exponent_of(prev, v) == exponent_of(
                full.take(i as int + 1),
                v,
            ) by {}
        }
        i += 1;
    }
    proof {
        assert(full.take(i as int) =~= full);
        assert(is_normal_form(out.deep_view(), src));
        assert(exponents_fit(src));
        lemma_normal_form_is(out.deep_view(), src);
    }
    Some(out)
}

} // verus!
