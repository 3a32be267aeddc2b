use std::cmp::Ordering;
use std::collections::VecDeque;
use symbolic_expr::{
    Bindings, CanonicalTerm, Expr, ExprError, Factor, NameSet, Operand, Rational,
    RationalExpression, Type,
};

fn ratio(numer: isize, denom: isize) -> Rational {
    Rational::new(numer, denom).unwrap()
}

fn term(numer: isize, denom: isize, factors: &[(&str, isize)]) -> CanonicalTerm {
    CanonicalTerm {
        coef: ratio(numer, denom),
        factors: factors.iter().map(|(base, exponent)| Factor::new(base, *exponent)).collect(),
    }
}

fn shape(terms: &[CanonicalTerm]) -> Vec<(isize, isize, Vec<(String, isize)>)> {
    terms
        .iter()
        .map(|t| {
            (
                t.coef.numer(),
                t.coef.denom(),
                t.factors.iter().map(|f| (f.base.clone(), f.exponent)).collect(),
            )
        })
        .collect()
}

fn names(list: &[(&str, isize)]) -> Vec<(String, isize)> {
    list.iter().map(|(base, exponent)| (base.to_string(), *exponent)).collect()
}

#[test]
fn rational_new_reduces_to_lowest_terms() {
    let half = ratio(2, 4);
    assert_eq!((half.numer(), half.denom()), (1, 2));
    let negative = ratio(3, -6);
    assert_eq!((negative.numer(), negative.denom()), (-1, 2));
    let zero = ratio(0, 5);
    assert_eq!((zero.numer(), zero.denom()), (0, 1));
    assert!(zero.is_zero());
    assert!(!half.is_zero());
}

#[test]
fn rational_new_refuses_what_it_cannot_hold() {
    assert_eq!(Rational::new(1, 0), None);
    assert_eq!(Rational::new(isize::MIN, 1), None);
    assert_eq!(Rational::new(1, isize::MIN), None);
}

#[test]
fn rational_from_integer_has_denominator_one() {
    let seven = Rational::from_integer(7);
    assert_eq!((seven.numer(), seven.denom()), (7, 1));
    assert!(seven.is_integer());
    assert!(!ratio(7, 2).is_integer());
    let least = Rational::from_integer(isize::MIN);
    assert_eq!((least.numer(), least.denom()), (isize::MIN, 1));
}

#[test]
fn rational_checked_add_is_exact() {
    assert_eq!(ratio(1, 2).checked_add(&ratio(1, 3)), Some(ratio(5, 6)));
    assert_eq!(ratio(1, 2).checked_add(&ratio(1, 2)), Some(Rational::from_integer(1)));
    assert_eq!(ratio(1, 2).checked_add(&ratio(-1, 2)), Some(Rational::from_integer(0)));
    assert_eq!(
        Rational::from_integer(isize::MAX).checked_add(&Rational::from_integer(1)),
        None
    );
}

#[test]
fn rational_checked_mul_is_exact() {
    assert_eq!(ratio(2, 3).checked_mul(&ratio(3, 4)), Some(ratio(1, 2)));
    assert_eq!(ratio(-2, 3).checked_mul(&ratio(3, 2)), Some(Rational::from_integer(-1)));
    assert_eq!(
        Rational::from_integer(isize::MAX).checked_mul(&Rational::from_integer(2)),
        None
    );
}

#[test]
fn rational_checked_div_is_exact() {
    assert_eq!(ratio(1, 2).checked_div(&ratio(1, 4)), Some(Rational::from_integer(2)));
    assert_eq!(ratio(1, 2).checked_div(&ratio(-3, 1)), Some(ratio(-1, 6)));
    assert_eq!(ratio(1, 2).checked_div(&Rational::from_integer(0)), None);
    assert_eq!(
        Rational::from_integer(0).checked_div(&Rational::from_integer(isize::MIN)),
        None
    );
}

#[test]
fn rational_checked_neg_is_exact() {
    assert_eq!(ratio(1, 2).checked_neg(), Some(ratio(-1, 2)));
    assert_eq!(Rational::from_integer(0).checked_neg(), Some(Rational::from_integer(0)));
    assert_eq!(Rational::from_integer(isize::MIN).checked_neg(), None);
}

#[test]
fn rational_magnitude_of_the_numerator() {
    assert_eq!(ratio(-3, 2).numer_magnitude(), 3);
    assert_eq!(ratio(3, 2).numer_magnitude(), 3);
    assert_eq!(
        Rational::from_integer(isize::MIN).numer_magnitude(),
        (isize::MAX as usize) + 1
    );
}

#[test]
fn rational_order_is_the_order_of_the_numbers() {
    assert!(ratio(1, 3).less_than(&ratio(1, 2)));
    assert!(!ratio(1, 2).less_than(&ratio(1, 3)));
    assert!(!ratio(1, 2).less_than(&ratio(2, 4)));
    assert!(ratio(-1, 2).less_than(&ratio(1, 3)));
    assert_eq!(ratio(1, 3).order(&ratio(1, 2)), Ordering::Less);
    assert_eq!(ratio(1, 2).order(&ratio(1, 2)), Ordering::Equal);
    assert_eq!(ratio(2, 3).order(&ratio(1, 2)), Ordering::Greater);
    assert!(ratio(1, 3) < ratio(1, 2));
}

#[test]
fn names_are_ordered_by_code_point() {
    let mut set = NameSet::new();
    for name in ["b", "z", "\u{e9}", "ab", "a", "Z", "", "a"] {
        set.insert(name);
    }
    let sorted: Vec<String> = ["", "Z", "a", "ab", "b", "z", "\u{e9}"]
        .iter()
        .map(|name| name.to_string())
        .collect();
    assert_eq!(set.to_vec(), sorted);
}

#[test]
fn term_multiply_adds_exponents() {
    let product = term(2, 1, &[("a", 1)]).multiply(&term(3, 1, &[("a", 1), ("b", -1)])).unwrap();
    assert_eq!(shape(&[product]), vec![(6, 1, names(&[("a", 2), ("b", -1)]))]);
    let cancelled = term(1, 2, &[("b", 1), ("a", 1)]).multiply(&term(4, 1, &[("a", -1)])).unwrap();
    assert_eq!(shape(&[cancelled]), vec![(2, 1, names(&[("b", 1)]))]);
}

#[test]
fn term_multiply_reports_overflow() {
    assert_eq!(term(isize::MAX, 1, &[]).multiply(&term(2, 1, &[])), None);
    assert_eq!(
        term(1, 1, &[("a", isize::MAX)]).multiply(&term(1, 1, &[("a", 1)])),
        None
    );
}

#[test]
fn term_divide_subtracts_exponents() {
    let quotient = term(6, 1, &[("a", 2)]).divide(&term(4, 1, &[("a", 1), ("b", 1)])).unwrap();
    assert_eq!(shape(&[quotient]), vec![(3, 2, names(&[("a", 1), ("b", -1)]))]);
    assert_eq!(term(1, 1, &[]).divide(&term(0, 1, &[])), None);
    assert_eq!(term(1, 1, &[]).divide(&term(1, 1, &[("a", isize::MIN)])), None);
}

#[test]
fn term_negation_in_place() {
    let mut t = term(3, 2, &[("a", 1)]);
    assert!(t.neg());
    assert_eq!(shape(&[t]), vec![(-3, 2, names(&[("a", 1)]))]);
    let mut least = term(1, 1, &[]);
    least.coef = Rational::from_integer(isize::MIN);
    assert!(!least.neg());
    assert_eq!(least.coef, Rational::from_integer(isize::MIN));
}

#[test]
fn term_is_constant_without_variables() {
    assert!(term(5, 1, &[]).is_constant());
    assert!(term(5, 1, &[("a", 0)]).is_constant());
    assert!(!term(5, 1, &[("a", 0), ("b", 1)]).is_constant());
}

#[test]
fn combine_like_terms_sorts_and_merges() {
    let terms = vec![
        term(1, 1, &[("b", 1)]),
        term(1, 2, &[("a", 1)]),
        term(4, 1, &[]),
        term(1, 2, &[("a", 1)]),
        term(-1, 1, &[("b", 1)]),
        term(1, 1, &[("a", 2)]),
    ];
    let combined = CanonicalTerm::combine_like_terms(terms).unwrap();
    assert_eq!(
        shape(&combined),
        vec![
            (4, 1, names(&[])),
            (1, 1, names(&[("a", 1)])),
            (1, 1, names(&[("a", 2)])),
        ]
    );
}

#[test]
fn combine_like_terms_normalizes_factor_lists() {
    let terms = vec![term(1, 1, &[("b", 1), ("a", 1)]), term(2, 1, &[("a", 1), ("b", 1)])];
    let combined = CanonicalTerm::combine_like_terms(terms).unwrap();
    assert_eq!(shape(&combined), vec![(3, 1, names(&[("a", 1), ("b", 1)]))]);
}

#[test]
fn combine_like_terms_twice_is_once() {
    let terms = vec![
        term(2, 1, &[("x", 1)]),
        term(3, 1, &[]),
        term(5, 3, &[("x", 1)]),
        term(1, 1, &[("y", -2)]),
    ];
    let once = CanonicalTerm::combine_like_terms(terms).unwrap();
    let twice = CanonicalTerm::combine_like_terms(once.clone()).unwrap();
    assert_eq!(once, twice);
}

#[test]
fn combine_like_terms_reports_overflow() {
    let terms = vec![term(isize::MAX, 1, &[("a", 1)]), term(1, 1, &[("a", 1)])];
    assert_eq!(CanonicalTerm::combine_like_terms(terms), None);
    let terms = vec![term(1, 1, &[("a", isize::MAX), ("a", 1)])];
    assert_eq!(CanonicalTerm::combine_like_terms(terms), None);
}

#[test]
fn sum_and_product_of_term_lists() {
    let a_plus_one = vec![term(1, 1, &[("a", 1)]), term(1, 1, &[])];
    let a_minus_one = vec![term(1, 1, &[("a", 1)]), term(-1, 1, &[])];
    let sum = CanonicalTerm::sum_terms(&a_plus_one, &a_minus_one).unwrap();
    assert_eq!(shape(&sum), vec![(2, 1, names(&[("a", 1)]))]);
    let product = CanonicalTerm::multiply_terms(&a_plus_one, &a_minus_one).unwrap();
    assert_eq!(shape(&product), vec![(-1, 1, names(&[])), (1, 1, names(&[("a", 2)]))]);
    let quotient = CanonicalTerm::terms_divide_by_term(&product, &term(2, 1, &[("a", 1)])).unwrap();
    assert_eq!(
        shape(&quotient),
        vec![(-1, 2, names(&[("a", -1)])), (1, 2, names(&[("a", 1)]))]
    );
}

#[test]
fn simplify_divides_by_a_single_term() {
    let r = RationalExpression::new(
        vec![term(2, 1, &[("a", 1)]), term(4, 1, &[])],
        vec![term(2, 1, &[("a", 1)])],
    )
    .unwrap();
    let s = r.simplify().unwrap();
    assert_eq!(shape(s.numer()), vec![(1, 1, names(&[])), (2, 1, names(&[("a", -1)]))]);
    assert_eq!(shape(s.denom()), vec![(1, 1, names(&[]))]);
}

#[test]
fn simplify_of_nothing_is_zero() {
    let r = RationalExpression::new(vec![], vec![term(3, 1, &[])]).unwrap();
    assert_eq!(r.simplify(), Some(RationalExpression::new_zero()));
}

#[test]
fn simplify_keeps_a_longer_denominator() {
    let r = RationalExpression::new(
        vec![term(1, 1, &[("a", 1)]), term(1, 1, &[("a", 1)])],
        vec![term(1, 1, &[("c", 1)]), term(2, 1, &[])],
    )
    .unwrap();
    let s = r.simplify().unwrap();
    assert_eq!(shape(s.numer()), vec![(2, 1, names(&[("a", 1)]))]);
    assert_eq!(shape(s.denom()), vec![(2, 1, names(&[])), (1, 1, names(&[("c", 1)]))]);
}

#[test]
fn simplify_fails_where_the_denominator_vanishes() {
    let r = RationalExpression::new(
        vec![term(1, 1, &[])],
        vec![term(1, 1, &[("a", 1)]), term(-1, 1, &[("a", 1)])],
    )
    .unwrap();
    assert_eq!(r.simplify(), None);
    let by_zero = RationalExpression::new(vec![term(1, 1, &[])], vec![term(0, 1, &[])]).unwrap();
    assert_eq!(by_zero.simplify(), None);
}

#[test]
fn negate_and_invert() {
    let mut r = RationalExpression::new(
        vec![term(1, 1, &[("a", 1)]), term(-2, 1, &[])],
        vec![term(3, 1, &[])],
    )
    .unwrap();
    assert!(r.neg());
    assert_eq!(shape(r.numer()), vec![(-1, 1, names(&[("a", 1)])), (2, 1, names(&[]))]);
    let inverse = r.invert().unwrap();
    assert_eq!(shape(inverse.numer()), vec![(3, 1, names(&[]))]);
    assert_eq!(shape(inverse.denom()), vec![(-1, 1, names(&[("a", 1)])), (2, 1, names(&[]))]);
    let empty = RationalExpression::new(vec![], vec![term(1, 1, &[])]).unwrap();
    assert_eq!(empty.invert(), None);
}

#[test]
fn lowering_a_constant_and_a_variable() {
    let five = RationalExpression::from_dim(&Expr::constant(5)).unwrap();
    assert_eq!(shape(five.numer()), vec![(5, 1, names(&[]))]);
    assert_eq!(shape(five.denom()), vec![(1, 1, names(&[]))]);
    let x = RationalExpression::from_dim(&Expr::var("x")).unwrap();
    assert_eq!(shape(x.numer()), vec![(1, 1, names(&[("x", 1)]))]);
    assert_eq!(shape(x.denom()), vec![(1, 1, names(&[]))]);
}

#[test]
fn lowering_a_quotient_by_a_monomial_keeps_the_denominator_one() {
    let e = (Expr::var("a") + 1) / (Expr::var("b") * 2);
    let r = RationalExpression::from_dim(&e).unwrap();
    assert_eq!(
        shape(r.numer()),
        vec![(1, 2, names(&[("a", 1), ("b", -1)])), (1, 2, names(&[("b", -1)]))]
    );
    assert_eq!(shape(r.denom()), vec![(1, 1, names(&[]))]);
}

#[test]
fn lowering_a_quotient_by_a_sum_keeps_the_sum() {
    let e = Expr::var("a") / (Expr::var("b") + 1);
    let r = RationalExpression::from_dim(&e).unwrap();
    assert_eq!(shape(r.numer()), vec![(1, 1, names(&[("a", 1)]))]);
    assert_eq!(shape(r.denom()), vec![(1, 1, names(&[])), (1, 1, names(&[("b", 1)]))]);
}

#[test]
fn lowering_fails_on_what_it_cannot_hold() {
    assert_eq!(RationalExpression::from_dim(&Expr::constant(usize::MAX)), None);
    let by_nothing = Expr::var("a") / (Expr::var("b") - Expr::var("b"));
    assert_eq!(RationalExpression::from_dim(&by_nothing), None);
    let by_zero = Expr::var("a") / 0;
    assert_eq!(RationalExpression::from_dim(&by_zero), None);
}

#[test]
fn lowering_an_empty_sum_and_product() {
    let nothing = RationalExpression::from_dim(&Expr::Sum(VecDeque::new())).unwrap();
    assert_eq!(nothing, RationalExpression::new_zero());
    let unit = RationalExpression::from_dim(&Expr::Product(VecDeque::new())).unwrap();
    assert_eq!(unit, RationalExpression::new_one());
}

#[test]
fn operators_flatten_nesting_of_the_same_kind() {
    let a = Expr::var("a");
    let b = Expr::var("b");
    let c = Expr::var("c");
    match (a.clone() + b.clone()) + c.clone() {
        Expr::Sum(operands) => {
            assert_eq!(operands.len(), 3);
            assert!(operands.iter().all(|op| op.ty == Type::Positive));
        }
        other => panic!("not a sum: {:?}", other),
    }
    match a.clone() - (b.clone() - c.clone()) {
        Expr::Sum(operands) => {
            let signs: Vec<Type> = operands.iter().map(|op| op.ty).collect();
            assert_eq!(signs, vec![Type::Positive, Type::Negative, Type::Positive]);
        }
        other => panic!("not a sum: {:?}", other),
    }
    match (a.clone() * b.clone()) / (c.clone() / a.clone()) {
        Expr::Product(operands) => {
            let signs: Vec<Type> = operands.iter().map(|op| op.ty).collect();
            assert_eq!(
                signs,
                vec![Type::Positive, Type::Positive, Type::Negative, Type::Positive]
            );
        }
        other => panic!("not a product: {:?}", other),
    }
    match (a.clone() + b.clone()) * c.clone() {
        Expr::Product(operands) => assert_eq!(operands.len(), 2),
        other => panic!("not a product: {:?}", other),
    }
}

#[test]
fn signs_reverse() {
    assert_eq!(Type::Positive.rev(), Type::Negative);
    assert_eq!(Type::Negative.rev(), Type::Positive);
    let mut operand = Expr::constant(1).positive();
    assert_eq!(operand.ty, Type::Positive);
    operand.rev_assign();
    assert_eq!(operand.ty, Type::Negative);
    let back: Operand = -operand;
    assert_eq!(back.ty, Type::Positive);
    assert_eq!(Expr::constant(1).negative().ty, Type::Negative);
}

#[test]
fn conversions_into_expressions() {
    assert!(matches!(Expr::from(3usize), Expr::Constant(3)));
    assert!(matches!(Expr::from("x"), Expr::Variable(name) if name == "x"));
    assert!(matches!(Expr::from("y".to_string()), Expr::Variable(name) if name == "y"));
    assert!(matches!(Expr::default(), Expr::Constant(0)));
}

#[test]
fn substitute_an_empty_sum_and_product() {
    let values = Bindings::new();
    assert_eq!(Expr::Sum(VecDeque::new()).substitute(&values), Ok(0));
    assert_eq!(Expr::Product(VecDeque::new()).substitute(&values), Ok(1));
}

#[test]
fn substitute_reports_a_negative_difference() {
    let e = Expr::var("a") - Expr::var("b");
    assert_eq!(e.substitute(&Bindings::new().with("a", 2).with("b", 3)), Err(ExprError::NonIntegerResult));
    assert_eq!(e.substitute(&Bindings::new().with("a", 3).with("b", 3)), Ok(0));
}

#[test]
fn substitute_reports_a_quotient_that_is_not_whole() {
    let e = Expr::var("a") / Expr::var("b");
    assert_eq!(e.substitute(&Bindings::new().with("a", 7).with("b", 2)), Err(ExprError::NonIntegerResult));
    assert_eq!(e.substitute(&Bindings::new().with("a", 7).with("b", 0)), Err(ExprError::NonIntegerResult));
    assert_eq!(e.substitute(&Bindings::new().with("a", 8).with("b", 2)), Ok(4));
}

#[test]
fn substitute_reports_overflow() {
    let sum = Expr::var("a") + 1;
    assert_eq!(sum.substitute(&Bindings::new().with("a", usize::MAX)), Err(ExprError::Overflow));
    let product = Expr::var("a") * 2;
    assert_eq!(product.substitute(&Bindings::new().with("a", usize::MAX)), Err(ExprError::Overflow));
}

#[test]
fn substitute_reports_the_first_failure() {
    let e = (Expr::var("a") - 5) + Expr::var("missing");
    assert_eq!(e.substitute(&Bindings::new().with("a", 1)), Err(ExprError::NonIntegerResult));
    let e = Expr::var("missing") + (Expr::var("a") - 5);
    assert_eq!(e.substitute(&Bindings::new().with("a", 1)), Err(ExprError::UnknownVariable));
}

#[test]
fn substitute_a_rational_leaf() {
    let leaf = Expr::Rational(
        RationalExpression::new(
            vec![term(1, 2, &[("a", 2)]), term(-3, 1, &[])],
            vec![term(1, 1, &[("b", -1)])],
        )
        .unwrap(),
    );
    // (a^2 / 2 - 3) / (1 / b) with a = 4, b = 2 is 10
    assert_eq!(leaf.substitute(&Bindings::new().with("a", 4).with("b", 2)), Ok(10));
    // with a = 2 it is -2, of which the magnitude is returned
    assert_eq!(leaf.substitute(&Bindings::new().with("a", 2).with("b", 2)), Ok(2));
    assert_eq!(leaf.substitute(&Bindings::new().with("a", 4)), Err(ExprError::UnknownVariable));
    assert_eq!(
        leaf.substitute(&Bindings::new().with("a", 4).with("b", 0)),
        Err(ExprError::NonIntegerResult)
    );
    assert_eq!(
        leaf.substitute(&Bindings::new().with("a", usize::MAX).with("b", 1)),
        Err(ExprError::Overflow)
    );
}

#[test]
fn rational_substitute_is_exact() {
    let r = RationalExpression::new(vec![term(1, 1, &[("a", 1)])], vec![term(3, 1, &[])]).unwrap();
    assert_eq!(r.substitute(&Bindings::new().with("a", 2)), Ok(ratio(2, 3)));
    let by_zero = RationalExpression::new(vec![term(1, 1, &[])], vec![term(1, 1, &[("a", 1)])]).unwrap();
    assert_eq!(by_zero.substitute(&Bindings::new().with("a", 0)), Err(ExprError::NonIntegerResult));
    assert_eq!(by_zero.substitute(&Bindings::new()), Err(ExprError::UnknownVariable));
}

#[test]
fn term_value_follows_the_exponents() {
    let t = term(3, 1, &[("a", 2), ("b", -1), ("c", 0)]);
    let values = Bindings::new().with("a", 4).with("b", 6).with("c", 9);
    assert_eq!(t.value(&values), Ok(Rational::from_integer(8)));
    assert_eq!(t.value(&Bindings::new().with("a", 4).with("b", 6)), Err(ExprError::UnknownVariable));
}

#[test]
fn partial_substitute_keeps_what_is_not_bound() {
    let r = RationalExpression::new(
        vec![term(2, 1, &[("a", 1)]), term(3, 1, &[("b", 1)])],
        vec![term(6, 1, &[])],
    )
    .unwrap();
    let s = r.partial_substitute(&Bindings::new().with("a", 6)).unwrap();
    assert_eq!(shape(s.numer()), vec![(2, 1, names(&[])), (1, 2, names(&[("b", 1)]))]);
    assert_eq!(shape(s.denom()), vec![(1, 1, names(&[]))]);
}

#[test]
fn partial_substitute_with_nothing_bound_simplifies() {
    let e = (Expr::var("a") * 2 + Expr::var("a")) / 3;
    let s = e.partial_substitute(&Bindings::new()).unwrap();
    assert_eq!(s.equivalent(&Expr::var("a")), Some(true));
    match s {
        Expr::Rational(r) => {
            assert_eq!(shape(r.numer()), vec![(1, 1, names(&[("a", 1)]))]);
        }
        other => panic!("not a leaf: {:?}", other),
    }
}

#[test]
fn partial_substitute_fails_on_division_by_zero() {
    let e = Expr::var("a") / Expr::var("b");
    assert!(e.partial_substitute(&Bindings::new().with("b", 0)).is_none());
}

#[test]
fn lifting_simplifies() {
    let r = RationalExpression::new(vec![term(4, 1, &[("a", 1)])], vec![term(2, 1, &[])]).unwrap();
    let lifted = Expr::from_rational(r.clone()).unwrap();
    let lowered = RationalExpression::from_dim(&lifted).unwrap();
    assert_eq!(Some(lowered), r.simplify());
    let broken = RationalExpression::new(vec![term(1, 1, &[])], vec![term(0, 1, &[])]).unwrap();
    assert!(Expr::from_rational(broken).is_none());
}

#[test]
fn equivalence_has_three_answers() {
    assert_eq!(Expr::constant(1).equivalent(&Expr::constant(2)), Some(false));
    assert_eq!(Expr::var("a").equivalent(&Expr::var("b")), None);
    assert_eq!(Expr::var("a").equivalent(&Expr::var("a")), Some(true));
    assert_eq!(Expr::constant(usize::MAX).equivalent(&Expr::constant(usize::MAX)), None);
    let a = Expr::var("a");
    let b = Expr::var("b");
    assert!(!(a == b));
    assert!(!(a != b));
}

#[test]
fn equivalence_of_a_constant_over_a_variable_is_unknown() {
    let leaf = Expr::Rational(
        RationalExpression::new(vec![term(1, 1, &[])], vec![term(1, 1, &[("b", 1)])]).unwrap(),
    );
    assert_eq!(leaf.equivalent(&Expr::constant(0)), None);
}

#[test]
fn scaling_both_sides_of_a_quotient_changes_nothing() {
    let a = Expr::var("a");
    let b = Expr::var("b");
    let c = Expr::var("c");
    let d = Expr::var("d");
    for k in [1usize, 2, 3, 7, 12] {
        let plain = (a.clone() + b.clone()) / (c.clone() + d.clone());
        let scaled = ((a.clone() + b.clone()) * k) / ((c.clone() + d.clone()) * k);
        assert_eq!(plain.equivalent(&scaled), Some(true));
        let scaled_in_front = (Expr::constant(k) * (a.clone() + b.clone()))
            / (Expr::constant(k) * (c.clone() + d.clone()));
        assert_eq!(plain.equivalent(&scaled_in_front), Some(true));
    }
}

#[test]
fn sums_and_products_commute() {
    let x = (Expr::var("a") + 1) / Expr::var("b");
    let y = Expr::var("c") * Expr::var("c") - 2;
    assert_eq!((x.clone() + y.clone()).equivalent(&(y.clone() + x.clone())), Some(true));
    assert_eq!((x.clone() * y.clone()).equivalent(&(y.clone() * x.clone())), Some(true));
}

#[test]
fn products_distribute_over_sums() {
    let a = Expr::var("a") / Expr::var("c");
    let b = Expr::var("b");
    let left = a.clone() * (b.clone() + 1);
    let right = a.clone() * b.clone() + a.clone();
    assert_eq!(left.equivalent(&right), Some(true));
}

#[test]
fn products_distribute_whatever_the_parts_are() {
    let parts = [
        Expr::var("a") + Expr::var("c"),
        Expr::var("a") * Expr::var("c") / 3,
        Expr::constant(5),
        Expr::var("a") / (Expr::var("c") + 2),
    ];
    for a in parts.iter() {
        for b in parts.iter() {
            let left = a.clone() * (b.clone() + 1);
            let right = a.clone() * b.clone() + a.clone();
            assert_eq!(left.equivalent(&right), Some(true));
        }
    }
}

#[test]
fn division_is_consistent() {
    let a = Expr::var("a") + 2;
    let b = Expr::var("b") * Expr::var("a");
    let c = Expr::var("c") - 1;
    let left = (a.clone() * b.clone()) / c.clone();
    let right = a.clone() * (b.clone() / c.clone());
    assert_eq!(left.equivalent(&right), Some(true));
    let twice = (a.clone() / b.clone()) / c.clone();
    let once = a.clone() / (b.clone() * c.clone());
    assert_eq!(twice.equivalent(&once), Some(true));
    assert_eq!(twice.equivalent(&left), None);
}

#[test]
fn every_expression_is_equivalent_to_itself() {
    let e = (Expr::var("a") + 1) * Expr::var("b") / (Expr::var("c") - Expr::var("a"));
    assert_eq!(e.equivalent(&e.clone()), Some(true));
}

#[test]
fn variables_are_listed_in_order() {
    let e = (Expr::var("zeta") + Expr::var("alpha")) * Expr::var("mu") / Expr::var("alpha");
    assert_eq!(e.variables().to_vec(), vec!["alpha", "mu", "zeta"]);
    let leaf = Expr::Rational(
        RationalExpression::new(vec![term(1, 1, &[("q", 0)])], vec![term(1, 1, &[("p", 2)])]).unwrap(),
    );
    assert_eq!(leaf.variables().to_vec(), vec!["p", "q"]);
    let mut set = NameSet::new();
    set.insert("k");
    e.append_variables(&mut set);
    assert_eq!(set.to_vec(), vec!["alpha", "k", "mu", "zeta"]);
}

#[test]
fn name_set_holds_each_name_once() {
    let mut set = NameSet::new();
    assert_eq!(set.len(), 0);
    set.insert("b");
    set.insert("a");
    set.insert("b");
    set.insert("c");
    assert_eq!(set.len(), 3);
    assert!(set.contains("a"));
    assert!(!set.contains("d"));
    assert_eq!(set.to_vec(), vec!["a", "b", "c"]);
}

#[test]
fn bindings_keep_the_last_value() {
    let mut values = Bindings::new();
    assert_eq!(values.get("a"), None);
    values.insert("a", 1);
    values.insert("b", 2);
    values.insert("a", 3);
    assert_eq!(values.get("a"), Some(3));
    assert_eq!(values.get("b"), Some(2));
    assert_eq!(values.get("c"), None);
}

#[test]
fn factors_and_terms_are_ordered() {
    assert_eq!(Factor::new("a", 1).order(&Factor::new("b", 0)), Ordering::Less);
    assert_eq!(Factor::new("a", 2).order(&Factor::new("a", 1)), Ordering::Greater);
    assert_eq!(Factor::new("a", 1).order(&Factor::new("a", 1)), Ordering::Equal);
    assert!(Factor::new("a", 1) < Factor::new("a", 2));
    assert_eq!(term(9, 1, &[]).order(&term(1, 1, &[("a", 1)])), Ordering::Less);
    assert_eq!(term(1, 2, &[("a", 1)]).order(&term(1, 3, &[("a", 1)])), Ordering::Greater);
    assert_eq!(
        term(1, 1, &[("a", 1)]).order(&term(1, 1, &[("a", 1), ("b", 1)])),
        Ordering::Less
    );
    assert!(term(1, 1, &[("a", 1)]) < term(2, 1, &[("a", 1)]));
}

#[test]
fn rational_expressions_are_ordered() {
    let small = RationalExpression::new(vec![term(1, 1, &[])], vec![term(1, 1, &[])]).unwrap();
    let longer = RationalExpression::new(
        vec![term(1, 1, &[]), term(1, 1, &[("a", 1)])],
        vec![term(1, 1, &[])],
    )
    .unwrap();
    let other_denom = RationalExpression::new(vec![term(1, 1, &[])], vec![term(2, 1, &[])]).unwrap();
    assert_eq!(small.order(&longer), Ordering::Less);
    assert_eq!(longer.order(&small), Ordering::Greater);
    assert_eq!(small.order(&other_denom), Ordering::Less);
    assert_eq!(small.order(&small.clone()), Ordering::Equal);
    assert!(small < longer);
}
