//! The variables that an expression refers to.

use crate::expr::{Expr, ExprModel, lemma_operands_view, OperandModel, operands_view};
use crate::factor::{Factor, FactorModel};
use crate::order::{lemma_name_lt_properties, name_lt, name_precedes};
use crate::term::{CanonicalTerm, TermModel};
use vstd::prelude::*;

verus! {

/// The names of a list of factors.
pub open spec fn factors_variables(fs: Seq<FactorModel>) -> Set<Seq<char>> {
    Set::new(|v: Seq<char>| exists|j: int| 0 <= j < fs.len() && (#[trigger] fs[j]).base == v)
}

/// The names in the factors of a list of terms, whatever their exponents.
pub open spec fn terms_variables(terms: Seq<TermModel>) -> Set<Seq<char>> {
    Set::new(
        |v: Seq<char>|
            exists|i: int|
                0 <= i < terms.len() && factors_variables((#[trigger] terms[i]).factors).contains(
                    v,
                ),
    )
}

/// The names of the variables that occur in an expression.
pub open spec fn variables_of(e: ExprModel) -> Set<Seq<char>>
    decreases e,
{
    match e {
        ExprModel::Constant(_) => Set::empty(),
        ExprModel::Variable(v) => set![v],
        ExprModel::Sum(ops) => Set::new(
            |v: Seq<char>|
                exists|i: int|
                    0 <= i < ops.len() && variables_of((#[trigger] ops[i]).expr).contains(v),
        ),
        ExprModel::Product(ops) => Set::new(
            |v: Seq<char>|
                exists|i: int|
                    0 <= i < ops.len() && variables_of((#[trigger] ops[i]).expr).contains(v),
        ),
        ExprModel::Rational(r) => terms_variables(r.numer) + terms_variables(r.denom),
    }
}

/// The names of the variables that occur in the first `n` operands.
pub open spec fn operands_variables(ops: Seq<OperandModel>, n: int) -> Set<Seq<char>> {
    Set::new(
        |v: Seq<char>|
            exists|w: int| 0 <= w < n && variables_of((#[trigger] ops[w]).expr).contains(v),
    )
}

/// One more operand adds its own variables.
proof fn lemma_operands_variables_step(ops: Seq<OperandModel>, i: int)
    requires
        0 <= i < ops.len(),
    ensures
        operands_variables(ops, i + 1) == operands_variables(ops, i) + variables_of(ops[i].expr),
{
    let big = operands_variables(ops, i + 1);
    let small = operands_variables(ops, i);
    let own = variables_of(ops[i].expr);
    assert forall|v: Seq<char>| big.contains(v) <==> (small + own).contains(v) by {
        if big.contains(v) {
            let w = choose|w: int|
                0 <= w < i + 1 && variables_of((#[trigger] ops[w]).expr).contains(v);
            if w < i {
                assert(small.contains(v));
            }
        }
        if small.contains(v) {
            let w = choose|w: int| 0 <= w < i && variables_of((#[trigger] ops[w]).expr).contains(v);
            assert(big.contains(v));
        }
        if own.contains(v) {
            assert(variables_of(ops[i].expr).contains(v));
            assert(big.contains(v));
        }
    }
    assert(big =~= small + own);
}

/// The variables of a sum or a product are those of all its operands.
proof fn lemma_operands_variables_all(e: ExprModel)
    ensures
        e matches ExprModel::Sum(ops) ==> variables_of(e) == operands_variables(
            ops,
            ops.len() as int,
        ),
        e matches ExprModel::Product(ops) ==> variables_of(e) == operands_variables(
            ops,
            ops.len() as int,
        ),
{
    match e {
        ExprModel::Sum(ops) => {
            assert(variables_of(e) =~= operands_variables(ops, ops.len() as int));
        },
        ExprModel::Product(ops) => {
            assert(variables_of(e) =~= operands_variables(ops, ops.len() as int));
        },
        _ => {},
    }
}

/// A set of names, kept in ascending order.
#[derive(Debug)]
pub struct NameSet {
    names: Vec<String>,
}

impl NameSet {
    /// The names in ascending order.
    pub closed spec fn names(&self) -> Seq<Seq<char>> {
        Seq::new(self.names@.len(), |i: int| self.names@[i]@)
    }

    /// The names strictly ascend.
    #[verifier::type_invariant]
    pub closed spec fn inv(&self) -> bool {
        forall|i: int, j: int|
            0 <= i < j < self.names@.len() ==> name_lt(
                #[trigger] self.names@[i]@,
                #[trigger] self.names@[j]@,
            )
    }

    /// The empty set: it holds no name, and its list of names is empty.
    pub fn new() -> (r: NameSet)
        ensures
            r@ == Set::<Seq<char>>::empty(),
            r.names() == Seq::<Seq<char>>::empty(),
    {
        let r = NameSet { names: Vec::new() };
        assert(r.names() =~= Seq::<Seq<char>>::empty());
        assert(r@ =~= Set::<Seq<char>>::empty());
        r
    }

    /// How many names the set holds.
    pub fn len(&self) -> (n: usize)
        ensures
            n == self.names().len(),
    {
        self.names.len()
    }

    /// Adds a name to the set.
    pub fn insert(&mut self, name: &str)
        ensures
            final(self)@ == old(self)@.insert(name@),
    {
        proof {
            use_type_invariant(&*self);
            lemma_name_lt_properties();
        }
        let ghost before = self.names();
        let key = name.to_owned();
        let mut p: usize = 0;
        while p < self.names.len() && name_precedes(self.names[p].as_str(), name)
            invariant
                0 <= p <= self.names.len(),
                before == self.names(),
                forall|i: int| 0 <= i < p ==> name_lt(#[trigger] before[i], name@),
            decreases self.names.len() - p,
        {
            assert(before[p as int] == self.names@[p as int]@);
            p += 1;
        }
        proof {
            if p < self.names.len() {
                assert(before[p as int] == self.names@[p as int]@);
            }
        }
        if p < self.names.len() && self.names[p] == key {
            assert(self@ =~= self@.insert(name@)) by {
                assert(before[p as int] == name@);
            }
        } else {
            proof {
                assert forall|i: int| p <= i < before.len() implies name_lt(
                    name@,
                    #[trigger] before[i],
                ) by {
                    assert(before[i] == self.names@[i]@);
                    assert(before[p as int] == self.names@[p as int]@);
                    assert(!name_lt(before[p as int], name@));
                    assert(name_lt(name@, before[p as int]));
                    if i > p {
                        assert(name_lt(before[p as int], before[i]));
                    }
                }
            }
            let ghost old_names = self.names@;
            let mut grown: Vec<String> = Vec::new();
            let mut i: usize = 0;
            while i < self.names.len()
                invariant
                    0 <= i <= self.names.len(),
                    0 <= p <= self.names.len(),
                    old_names == self.names@,
                    key@ == name@,
                    grown@.len() == if i <= p {
                        i as int
                    } else {
                        i + 1
                    },
                    forall|j: int| 0 <= j < i && j < p ==> (#[trigger] grown@[j])@ == old_names[j]@,
                    i > p ==> grown@[p as int]@ == name@,
                    forall|j: int|
                        p <= j < i ==> (#[trigger] grown@[j + 1])@ == old_names[j]@,
                decreases self.names.len() - i,
            {
                if i == p {
                    grown.push(key.clone());
                }
                grown.push(self.names[i].clone());
                i += 1;
            }
            if p == self.names.len() {
                grown.push(key);
            }
            proof {
                assert(grown@.len() == old_names.len() + 1);
                assert forall|a: int, b: int| 0 <= a < b < grown@.len() implies name_lt(
                    #[trigger] grown@[a]@,
                    #[trigger] grown@[b]@,
                ) by {
                    if b < p {
                        assert(name_lt(old_names[a]@, old_names[b]@));
                    } else if b == p {
                        assert(name_lt(before[a], name@));
                    } else if a < p {
                        assert(grown@[(b - 1) + 1]@ == old_names[b - 1]@);
                        assert(name_lt(old_names[a]@, old_names[b - 1]@));
                    } else if a == p {
                        assert(grown@[(b - 1) + 1]@ == old_names[b - 1]@);
                        assert(name_lt(name@, before[b - 1]));
                    } else {
                        assert(grown@[(a - 1) + 1]@ == old_names[a - 1]@);
                        assert(grown@[(b - 1) + 1]@ == old_names[b - 1]@);
                        assert(name_lt(old_names[a - 1]@, old_names[b - 1]@));
                    }
                }
            }
            self.names = grown;
            proof {
                assert forall|j: int| 0 <= j < self.names().len() implies self.names()[j]
                    == before.insert(p as int, name@)[j] by {
                    if j > p {
                        assert(grown@[(j - 1) + 1]@ == old_names[j - 1]@);
                    }
                }
                assert(self.names() =~= before.insert(p as int, name@));
                assert forall|i: int, j: int| 0 <= i < j < self.names@.len() implies name_lt(
                    #[trigger] self.names@[i]@,
                    #[trigger] self.names@[j]@,
                ) by {
                    let now = self.names();
                    assert(now[i] == self.names@[i]@);
                    assert(now[j] == self.names@[j]@);
                    if j < p {
                        assert(name_lt(old_names[i]@, old_names[j]@));
                    } else if j == p {
                        assert(name_lt(before[i], name@));
                    } else if i < p {
                        assert(name_lt(old_names[i]@, old_names[j - 1]@));
                    } else if i == p {
                        assert(name_lt(name@, before[j - 1]));
                    } else {
                        assert(name_lt(old_names[i - 1]@, old_names[j - 1]@));
                    }
                }
                let now = self.names();
                assert forall|v: Seq<char>| self@.contains(v) <==> old(self)@.insert(
                    name@,
                ).contains(v) by {
                    if self@.contains(v) {
                        let i = choose|i: int| 0 <= i < now.len() && now[i] == v;
                        if i < p {
                            assert(before[i] == v);
                        } else if i > p {
                            assert(before[i - 1] == v);
                        }
                    }
                    if old(self)@.contains(v) {
                        let i = choose|i: int| 0 <= i < before.len() && before[i] == v;
                        if i < p {
                            assert(now[i] == v);
                        } else {
                            assert(now[i + 1] == v);
                        }
                    }
                    if v == name@ {
                        assert(now[p as int] == v);
                    }
                }
                assert(self@ =~= old(self)@.insert(name@));
            }
        }
    }

    /// Whether the set holds `name`.
    pub fn contains(&self, name: &str) -> (r: bool)
        ensures
            r == self@.contains(name@),
    {
        let key = name.to_owned();
        let mut i: usize = 0;
        while i < self.names.len()
            invariant
                0 <= i <= self.names.len(),
                key@ == name@,
                forall|j: int| 0 <= j < i ==> (#[trigger] self.names()[j]) != name@,
            decreases self.names.len() - i,
        {
            assert(self.names()[i as int] == self.names@[i as int]@);
            if self.names[i] == key {
                return true;
            }
            i += 1;
        }
        false
    }

    /// The names in ascending order, each once.
    pub fn to_vec(&self) -> (r: Vec<String>)
        ensures
            r@.len() == self.names().len(),
            forall|i: int| 0 <= i < r@.len() ==> (#[trigger] r@[i])@ == self.names()[i],
            forall|i: int, j: int|
                0 <= i < j < r@.len() ==> name_lt(#[trigger] r@[i]@, #[trigger] r@[j]@),
            forall|v: Seq<char>|
                self@.contains(v) <==> exists|i: int| 0 <= i < r@.len() && (#[trigger] r@[i])@ == v,
    {
        proof {
            use_type_invariant(self);
        }
        let mut out: Vec<String> = Vec::new();
        let mut i: usize = 0;
        while i < self.names.len()
            invariant
                0 <= i <= self.names.len(),
                out@.len() == i,
                forall|j: int| 0 <= j < i ==> (#[trigger] out@[j])@ == self.names()[j],
            decreases self.names.len() - i,
        {
            out.push(self.names[i].clone());
            i += 1;
        }
        proof {
            assert forall|i: int, j: int| 0 <= i < j < out@.len() implies name_lt(
                #[trigger] out@[i]@,
                #[trigger] out@[j]@,
            ) by {
                assert(out@[i]@ == self.names()[i]);
                assert(out@[j]@ == self.names()[j]);
                assert(name_lt(self.names@[i]@, self.names@[j]@));
            }
            assert forall|v: Seq<char>|
                self@.contains(v) <==> exists|i: int|
                    0 <= i < out@.len() && (#[trigger] out@[i])@ == v by {
                if self@.contains(v) {
                    let i = choose|i: int| 0 <= i < self.names().len() && self.names()[i] == v;
                    assert(out@[i]@ == v);
                }
                if exists|i: int| 0 <= i < out@.len() && (#[trigger] out@[i])@ == v {
                    let i = choose|i: int| 0 <= i < out@.len() && (#[trigger] out@[i])@ == v;
                    assert(self.names()[i] == v);
                }
            }
        }
        out
    }
}

impl View for NameSet {
    type V = Set<Seq<char>>;

    closed spec fn view(&self) -> Set<Seq<char>> {
        Set::new(|v: Seq<char>| exists|i: int| 0 <= i < self.names().len() && self.names()[i] == v)
    }
}

/// Adds the names of a list of factors to a set.
fn append_factors(fs: &Vec<Factor>, set: &mut NameSet)
    ensures
        final(set)@ == old(set)@ + factors_variables(fs.deep_view()),
{
    let ghost start = set@;
    let ghost src = fs.deep_view();
    let mut j: usize = 0;
    assert(set@ =~= start + factors_variables(src.take(0)));
    while j < fs.len()
        invariant
            0 <= j <= fs.len(),
            src == fs.deep_view(),
            set@ == start + factors_variables(src.take(j as int)),
        decreases fs.len() - j,
    {
        let ghost before = set@;
        assert(src[j as int] == fs[j as int]@);
        set.insert(fs[j].base.as_str());
        proof {
            let small = src.take(j as int);
            let big = src.take(j as int + 1);
            assert forall|v: Seq<char>| set@.contains(v) <==> (start + factors_variables(
                big,
            )).contains(v) by {
                if factors_variables(small).contains(v) {
                    let w = choose|w: int| 0 <= w < small.len() && (#[trigger] small[w]).base == v;
                    assert(big[w].base == v);
                }
                if factors_variables(big).contains(v) {
                    let w = choose|w: int| 0 <= w < big.len() && (#[trigger] big[w]).base == v;
                    if w < j {
                        assert(small[w].base == v);
                    }
                }
                if v == src[j as int].base {
                    assert(big[j as int].base == v);
                }
            }
            assert(set@ =~= start + factors_variables(big));
        }
        j += 1;
    }
    assert(src.take(j as int) =~= src);
}

/// Adds the names in a list of terms to a set.
fn append_terms(terms: &Vec<CanonicalTerm>, set: &mut NameSet)
    ensures
        final(set)@ == old(set)@ + terms_variables(terms.deep_view()),
{
    let ghost start = set@;
    let ghost src = terms.deep_view();
    let mut i: usize = 0;
    assert(set@ =~= start + terms_variables(src.take(0)));
    while i < terms.len()
        invariant
            0 <= i <= terms.len(),
            src == terms.deep_view(),
            set@ == start + terms_variables(src.take(i as int)),
        decreases terms.len() - i,
    {
        assert(src[i as int] == terms[i as int]@);
        append_factors(&terms[i].factors, set);
        proof {
            let small = src.take(i as int);
            let big = src.take(i as int + 1);
            assert forall|v: Seq<char>| set@.contains(v) <==> (start + terms_variables(
                big,
            )).contains(v) by {
                if terms_variables(small).contains(v) {
                    let w = choose|w: int|
                        0 <= w < small.len() && factors_variables(
                            (#[trigger] small[w]).factors,
                        ).contains(v);
                    assert(big[w] == small[w]);
                }
                if terms_variables(big).contains(v) {
                    let w = choose|w: int|
                        0 <= w < big.len() && factors_variables(
                            (#[trigger] big[w]).factors,
                        ).contains(v);
                    if w < i {
                        assert(small[w] == big[w]);
                    }
                }
                if factors_variables(src[i as int].factors).contains(v) {
                    assert(big[i as int] == src[i as int]);
                }
            }
            assert(set@ =~= start + terms_variables(big));
        }
        i += 1;
    }
    assert(src.take(i as int) =~= src);
}

impl Expr {
    /// The names of the variables that occur in the expression.
    pub fn variables(&self) -> (r: NameSet)
        ensures
            r@ == variables_of(self@),
    {
        let mut ans = NameSet::new();
        self.append_variables(&mut ans);
        assert(ans@ =~= variables_of(self@));
        ans
    }

    /// Adds the names of the variables that occur in the expression to `set`.
    #[verifier::loop_isolation(false)]
    pub fn append_variables(&self, set: &mut NameSet)
        ensures
            final(set)@ == old(set)@ + variables_of(self@),
        decreases self,
    {
        proof {
            lemma_operands_view(*self);
        }
        let ghost start = set@;
        match self {
            Expr::Constant(_) => {
                assert(set@ =~= start + variables_of(self@));
            },
            Expr::Variable(name) => {
                set.insert(name.as_str());
                assert(set@ =~= start + variables_of(self@));
            },
            Expr::Sum(operands) => {
                let ghost ops = operands_view(operands@);
                let mut i: usize = 0;
                assert(set@ =~= start + operands_variables(ops, 0));
                while i < operands.len()
                    invariant
                        0 <= i <= operands.len(),
                        set@ == start + operands_variables(ops, i as int),
                    decreases operands.len() - i,
                {
                    assert(ops[i as int] == operands@[i as int]@);
                    operands[i].expr.append_variables(set);
                    proof {
                        lemma_operands_variables_step(ops, i as int);
                        assert(set@ =~= start + operands_variables(ops, i as int + 1));
                    }
                    i += 1;
                }
                proof {
                    lemma_operands_variables_all(self@);
                }
            },
            Expr::Product(operands) => {
                let ghost ops = operands_view(operands@);
                let mut i: usize = 0;
                assert(set@ =~= start + operands_variables(ops, 0));
                while i < operands.len()
                    invariant
                        0 <= i <= operands.len(),
                        set@ == start + operands_variables(ops, i as int),
                    decreases operands.len() - i,
                {
                    assert(ops[i as int] == operands@[i as int]@);
                    operands[i].expr.append_variables(set);
                    proof {
                        lemma_operands_variables_step(ops, i as int);
                        assert(set@ =~= start + operands_variables(ops, i as int + 1));
                    }
                    i += 1;
                }
                proof {
                    lemma_operands_variables_all(self@);
                }
            },
            Expr::Rational(rational) => {
                append_terms(rational.numer(), set);
                append_terms(rational.denom(), set);
                assert(set@ =~= start + variables_of(self@));
            },
        }
    }
}

} // verus!
