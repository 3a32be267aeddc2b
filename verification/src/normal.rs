//! Every list of factors has a monomial.

use crate::factor::{
    bases_ascend, exponent_of, FactorModel, is_normal_form, lemma_exponent_absent,
    lemma_exponent_at, lemma_exponent_insert, lemma_exponent_update,
};
use crate::order::{lemma_name_lt_properties, name_lt};
use vstd::prelude::*;

verus! {

/// Where a name does not occur among ascending bases, there is a place that
/// parts the smaller bases from the larger ones.
pub proof fn lemma_place_of(m: Seq<FactorModel>, base: Seq<char>) -> (p: int)
    requires
        bases_ascend(m),
        forall|i: int| 0 <= i < m.len() ==> (#[trigger] m[i]).base != base,
    ensures
        0 <= p <= m.len(),
        forall|i: int| 0 <= i < p ==> name_lt((#[trigger] m[i]).base, base),
        forall|i: int| p <= i < m.len() ==> name_lt(base, (#[trigger] m[i]).base),
    decreases m.len(),
{
    lemma_name_lt_properties();
    if m.len() == 0 {
        0
    } else {
        let last = m.last();
        if name_lt(last.base, base) {
            assert forall|i: int| 0 <= i < m.len() implies name_lt((#[trigger] m[i]).base, base) by {
                if i < m.len() - 1 {
                    assert(name_lt(m[i].base, m[m.len() - 1].base));
                }
            }
            m.len() as int
        } else {
            assert(m[m.len() - 1].base != base);
            assert(name_lt(base, last.base));
            let front = m.drop_last();
            assert(bases_ascend(front)) by {
                assert forall|i: int, j: int| 0 <= i < j < front.len() implies name_lt(
                    #[trigger] front[i].base,
                    #[trigger] front[j].base,
                ) by {
                    assert(name_lt(m[i].base, m[j].base));
                }
            }
            assert forall|i: int| 0 <= i < front.len() implies (#[trigger] front[i]).base != base by {
                assert(m[i].base != base);
            }
            let p = lemma_place_of(front, base);
            assert forall|i: int| 0 <= i < p implies name_lt((#[trigger] m[i]).base, base) by {
                assert(name_lt(front[i].base, base));
            }
            assert forall|i: int| p <= i < m.len() implies name_lt(base, (#[trigger] m[i]).base) by {
                if i < m.len() - 1 {
                    assert(name_lt(base, front[i].base));
                }
            }
            p
        }
    }
}

/// Taking a factor out takes its exponent from its variable.
pub proof fn lemma_exponent_remove(fs: Seq<FactorModel>, p: int, v: Seq<char>)
    requires
        0 <= p < fs.len(),
    ensures
        exponent_of(fs.remove(p), v) == exponent_of(fs, v) - if fs[p].base == v {
            fs[p].exponent
        } else {
            0
        },
{
    let g = fs.remove(p);
    assert(g.insert(p, fs[p]) =~= fs);
    lemma_exponent_insert(g, p, fs[p], v);
}

/// Every list of factors has a monomial that equals its product.
pub proof fn lemma_normal_form_exists(fs: Seq<FactorModel>) -> (m: Seq<FactorModel>)
    ensures
        is_normal_form(m, fs),
    decreases fs.len(),
{
    lemma_name_lt_properties();
    if fs.len() == 0 {
        let m = Seq::<FactorModel>::empty();
        assert forall|v: Seq<char>| exponent_of(m, v) == exponent_of(fs, v) by {}
        m
    } else {
        let m0 = lemma_normal_form_exists(fs.drop_last());
        let f = fs.last();
        if exists|p: int| 0 <= p < m0.len() && (#[trigger] m0[p]).base == f.base {
            let p = choose|p: int| 0 <= p < m0.len() && (#[trigger] m0[p]).base == f.base;
            lemma_exponent_at(m0, p);
            let total = m0[p].exponent + f.exponent;
            if total != 0 {
                let g = FactorModel { base: f.base, exponent: total };
                let m = m0.update(p, g);
                assert forall|i: int, j: int| 0 <= i < j < m.len() implies name_lt(
                    #[trigger] m[i].base,
                    #[trigger] m[j].base,
                ) by {
                    assert(name_lt(m0[i].base, m0[j].base));
                }
                assert forall|i: int| 0 <= i < m.len() implies (#[trigger] m[i]).exponent != 0 by {
                    if i != p {
                        assert(m0[i].exponent != 0);
                    }
                }
                assert forall|v: Seq<char>| exponent_of(m, v) == exponent_of(fs, v) by {
                    lemma_exponent_update(m0, p, g, v);
                }
                m
            } else {
                let m = m0.remove(p);
                assert forall|i: int, j: int| 0 <= i < j < m.len() implies name_lt(
                    #[trigger] m[i].base,
                    #[trigger] m[j].base,
                ) by {
                    let a = if i < p {
                        i
                    } else {
                        i + 1
                    };
                    let b = if j < p {
                        j
                    } else {
                        j + 1
                    };
                    assert(m[i] == m0[a]);
                    assert(m[j] == m0[b]);
                    assert(name_lt(m0[a].base, m0[b].base));
                }
                assert forall|i: int| 0 <= i < m.len() implies (#[trigger] m[i]).exponent != 0 by {
                    let a = if i < p {
                        i
                    } else {
                        i + 1
                    };
                    assert(m[i] == m0[a]);
                    assert(m0[a].exponent != 0);
                }
                assert forall|v: Seq<char>| exponent_of(m, v) == exponent_of(fs, v) by {
                    lemma_exponent_remove(m0, p, v);
                }
                m
            }
        } else {
            lemma_exponent_absent(m0, f.base);
            if f.exponent == 0 {
                assert forall|v: Seq<char>| exponent_of(m0, v) == exponent_of(fs, v) by {}
                m0
            } else {
                let p = lemma_place_of(m0, f.base);
                let m = m0.insert(p, f);
                assert forall|i: int, j: int| 0 <= i < j < m.len() implies name_lt(
                    #[trigger] m[i].base,
                    #[trigger] m[j].base,
                ) by {
                    if j < p {
                        assert(name_lt(m0[i].base, m0[j].base));
                    } else if j == p {
                        assert(name_lt(m0[i].base, f.base));
                    } else if i < p {
                        assert(name_lt(m0[i].base, m0[j - 1].base));
                    } else if i == p {
                        assert(name_lt(f.base, m0[j - 1].base));
                    } else {
                        assert(name_lt(m0[i - 1].base, m0[j - 1].base));
                    }
                }
                assert forall|i: int| 0 <= i < m.len() implies (#[trigger] m[i]).exponent != 0 by {
                    if i < p {
                        assert(m0[i].exponent != 0);
                    } else if i > p {
                        assert(m0[i - 1].exponent != 0);
                    }
                }
                assert forall|v: Seq<char>| exponent_of(m, v) == exponent_of(fs, v) by {
                    lemma_exponent_insert(m0, p, f, v);
                }
                m
            }
        }
    }
}

} // verus!
