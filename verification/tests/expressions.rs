use std::collections::VecDeque;
use symbolic_expr::{
    Bindings, CanonicalTerm, Expr, ExprError, Factor, Operand, Rational, RationalExpression, Type,
};

fn rational_of(numer: Vec<CanonicalTerm>, denom: Vec<CanonicalTerm>) -> RationalExpression {
    RationalExpression::new(numer, denom).unwrap()
}

#[test]
fn test_dim_example() {
    let a = Expr::var("a");
    let b = Expr::var("b");
    let _1 = Expr::from(1);
    let expr = (a + _1 - 2) * 3 / (b + 1);
    assert_eq!(expr.substitute(&Bindings::new().with("a", 8).with("b", 6)), Ok(3));
}

#[test]
fn test_dim_equivalence() {
    // Test constant equivalence
    assert_eq!(Expr::from(1).equivalent(&Expr::from(1)), Some(true));
    assert_eq!(Expr::from(1).equivalent(&Expr::from(2)), Some(false));

    // Test variable equivalence
    let a = Expr::var("a");
    let b = Expr::var("b");
    println!("asserting a != b");
    assert_eq!(a.equivalent(&b), None);

    // Test sum equivalence
    let expr1 = a.clone() + 1;
    let expr2 = a.clone() + 1;
    let expr3 = a.clone() + 2;
    println!("asserting a + 1 == a + 1");
    assert!(expr1 == expr2);
    assert_eq!(expr1.equivalent(&expr2), Some(true));
    println!("asserting a + 1 != a + 2");
    assert!(expr1 != expr3);
    assert_eq!(expr1.equivalent(&expr3), Some(false));

    // Test product equivalence
    let expr4 = a.clone() * 2;
    let expr5 = a.clone() * 2;
    let expr6 = a.clone() * 3;
    println!("asserting a * 2 == a * 2");
    assert!(expr4 == expr5);
    assert_eq!(expr4.equivalent(&expr5), Some(true));
    println!("asserting a * 2 != a * 3");
    assert!(!(expr4 == expr6));
    assert!(!(expr4 != expr6));
    assert_eq!(expr4.equivalent(&expr6), None);

    // Test complex expression equivalence
    let complex1 = (a.clone() + 1) * 2;
    let complex2 = a.clone() * 2 + 2;
    let complex3 = a.clone() * 2 + 3;
    println!("asserting (a + 1) * 2 == a * 2 + 2");
    assert!(complex1 == complex2);
    assert_eq!(complex1.equivalent(&complex2), Some(true)); // (a + 1) * 2 = a * 2 + 2
    println!("asserting (a + 1) * 2 != a * 2 + 3");
    assert!(complex1 != complex3);
    assert_eq!(complex1.equivalent(&complex3), Some(false));

    // Test commutative operations
    let expr7 = a.clone() + b.clone();
    let expr8 = b.clone() + a.clone();
    println!("asserting a + b == b + a");
    assert!(expr7 == expr8);
    assert_eq!(expr7.equivalent(&expr8), Some(true)); // a + b = b + a

    let expr9 = a.clone() * b.clone();
    let expr10 = b.clone() * a.clone();
    println!("asserting a * b == b * a");
    assert!(expr9 == expr10);
    assert_eq!(expr9.equivalent(&expr10), Some(true)); // a * b = b * a

    // Test distributive property
    let expr11 = a.clone() * (b.clone() + 1);
    let expr12 = a.clone() * b.clone() + a.clone();
    println!("asserting a * (b + 1) == a * b + a");
    assert!(expr11 == expr12);
    assert_eq!(expr11.equivalent(&expr12), Some(true)); // a * (b + 1) = a * b + a

    // Test division and complex expressions
    let c = Expr::var("c");

    // Test division equivalence
    let expr13 = (a.clone() * b.clone()) / c.clone();
    let expr14 = a.clone() * (b.clone() / c.clone());
    println!("asserting (a * b) / c == a * (b / c)");
    assert!(expr13 == expr14);
    assert_eq!(expr13.equivalent(&expr14), Some(true)); // (a * b) / c = a * (b / c)

    // Test mixed operations with division
    let expr15 = (a.clone() + b.clone()) / c.clone();
    let expr16 = a.clone() / c.clone() + b.clone() / c.clone();
    println!("asserting (a + b) / c == a/c + b/c");
    assert!(expr15 == expr16);
    assert_eq!(expr15.equivalent(&expr16), Some(true)); // (a + b) / c = a/c + b/c

    // Test complex nested expressions
    let expr17 = (a.clone() * b.clone() + c.clone()) / (a.clone() + Expr::from(1));
    let expr18 = (b.clone() * a.clone() + c.clone()) / (Expr::from(1) + a.clone());
    println!("asserting (a*b + c)/(a + 1) == (b*a + c)/(1 + a)");
    assert!(expr17 == expr18);
    assert_eq!(expr17.equivalent(&expr18), Some(true)); // (a*b + c)/(a + 1) = (b*a + c)/(1 + a)

    // Test expressions with multiple divisions
    let expr19 = (a.clone() / b.clone()) / c.clone();
    let expr20 = a.clone() / (b.clone() * c.clone());
    println!("asserting (a/b)/c == a/(b*c)");
    assert!(expr19 == expr20);
    assert_eq!(expr19.equivalent(&expr20), Some(true)); // (a/b)/c = a/(b*c)

    // Test expressions with constants and variables
    let expr21 = (a.clone() * Expr::from(2) + b.clone() * Expr::from(3)) / Expr::from(6);
    let expr22 = a.clone() / Expr::from(3) + b.clone() / Expr::from(2);
    println!("asserting (2a + 3b)/6 == a/3 + b/2");
    assert!(expr21 == expr22);
    assert_eq!(expr21.equivalent(&expr22), Some(true)); // (2a + 3b)/6 = a/3 + b/2

    // Test expressions with nested divisions and multiplications
    let expr23 = a.clone() * (b.clone() / (c.clone() * Expr::from(2)));
    let expr24 = (a.clone() * b.clone()) / (Expr::from(2) * c.clone());
    println!("asserting a * (b/(c*2)) == (a*b)/(2*c)");
    assert!(expr23 == expr24);
    assert_eq!(expr23.equivalent(&expr24), Some(true)); // a * (b/(c*2)) = (a*b)/(2*c)

    // Test expressions with subtraction and division
    let expr25 = (a.clone() - b.clone()) / c.clone();
    let expr26 = a.clone() / c.clone() - b.clone() / c.clone();
    println!("asserting (a - b)/c == a/c - b/c");
    assert!(expr25 == expr26);
    assert_eq!(expr25.equivalent(&expr26), Some(true)); // (a - b)/c = a/c - b/c

    // Test expressions with multiple operations
    let expr27 = (a.clone() * b.clone() + c.clone() * Expr::from(2)) / (b.clone() + Expr::from(2));
    let expr28 = (b.clone() * a.clone() + Expr::from(2) * c.clone()) / (Expr::from(2) + b.clone());
    println!("asserting (a*b + 2c)/(b + 2) == (b*a + 2c)/(2 + b)");
    assert!(expr27 == expr28);
    assert_eq!(expr27.equivalent(&expr28), Some(true)); // (a*b + 2c)/(b + 2) = (b*a + 2c)/(2 + b)
}

#[test]
fn test_power_expressions() {
    let a = Expr::var("a");
    let b = Expr::var("b");
    let c = Expr::var("c");

    // Test simple power expressions
    let pow1 = a.clone() * a.clone();
    let pow2 = a.clone() * a.clone();
    println!("asserting a * a == a * a");
    assert!(pow1 == pow2);
    assert_eq!(pow1.equivalent(&pow2), Some(true));

    // Test power with division
    let pow3 = (a.clone() * a.clone()) / b.clone();
    let pow4 = a.clone() * (a.clone() / b.clone());
    println!("asserting (a * a) / b == a * (a / b)");
    assert!(pow3 == pow4);
    assert_eq!(pow3.equivalent(&pow4), Some(true));

    // Test multiple variables with powers
    let pow5 = (a.clone() * a.clone() * b.clone()) / (c.clone() * c.clone());
    let pow6 = (a.clone() * b.clone()) * (a.clone() / (c.clone() * c.clone()));
    println!("asserting (a² * b) / c² == (a * b) * (a / c²)");
    assert!(pow5 == pow6);
    assert_eq!(pow5.equivalent(&pow6), Some(true));

    // Test complex power expressions with constants
    let pow7 = (a.clone() * a.clone() * Expr::from(2) + b.clone() * b.clone() * Expr::from(3)) / Expr::from(6);
    let pow8 = (a.clone() * a.clone()) / Expr::from(3) + (b.clone() * b.clone()) / Expr::from(2);
    println!("asserting (2a² + 3b²)/6 == a²/3 + b²/2");
    assert!(pow7 == pow8);
    assert_eq!(pow7.equivalent(&pow8), Some(true));

    // Test nested power expressions
    let pow9 = (a.clone() * a.clone() + b.clone()) / (a.clone() * c.clone());
    let pow10 = a.clone() / c.clone() + b.clone() / (a.clone() * c.clone());
    println!("asserting (a² + b)/(a * c) == a/c + b/(a * c)");
    assert!(pow9 == pow10);
    assert_eq!(pow9.equivalent(&pow10), Some(true));

    // Test power expressions with multiple operations
    let pow11 = (a.clone() * a.clone() * b.clone() + c.clone() * c.clone()) / (b.clone() + Expr::from(2));
    let pow12 = (b.clone() * a.clone() * a.clone() + c.clone() * c.clone()) / (Expr::from(2) + b.clone());
    println!("asserting (a² * b + c²)/(b + 2) == (b * a² + c²)/(2 + b)");
    assert!(pow11 == pow12);
    assert_eq!(pow11.equivalent(&pow12), Some(true));

    // Test power expressions with division and multiplication
    let pow13 = (a.clone() * a.clone()) / (b.clone() * b.clone()) * c.clone();
    let pow14 = (a.clone() * a.clone() * c.clone()) / (b.clone() * b.clone());
    println!("asserting (a²/b²) * c == (a² * c)/b²");
    assert!(pow13 == pow14);
    assert_eq!(pow13.equivalent(&pow14), Some(true));

    // Test sum of terms with same variable but different exponents
    let sum1 = a.clone() + a.clone() * a.clone() + a.clone() * a.clone() * a.clone();
    let sum2 = a.clone() * a.clone() * a.clone() + a.clone() * a.clone() + a.clone();
    println!("asserting a + a² + a³ == a³ + a² + a");
    assert!(sum1 == sum2);
    assert_eq!(sum1.equivalent(&sum2), Some(true));

    // Test sum of terms with same variable and coefficients
    let sum3 = a.clone() * Expr::from(2) + a.clone() * a.clone() * Expr::from(3) + a.clone() * a.clone() * a.clone() * Expr::from(4);
    let sum4 = a.clone() * a.clone() * a.clone() * Expr::from(4) + a.clone() * Expr::from(2) + a.clone() * a.clone() * Expr::from(3);
    println!("asserting 2a + 3a² + 4a³ == 4a³ + 2a + 3a²");
    assert!(sum3 == sum4);
    assert_eq!(sum3.equivalent(&sum4), Some(true));

    // Test sum of terms with same variable and negative coefficients
    let sum5 = a.clone() * Expr::from(2) - a.clone() * a.clone() * Expr::from(3) + a.clone() * a.clone() * a.clone() * Expr::from(4);
    let sum6 = a.clone() * a.clone() * a.clone() * Expr::from(4) + a.clone() * Expr::from(2) - a.clone() * a.clone() * Expr::from(3);
    println!("asserting 2a - 3a² + 4a³ == 4a³ + 2a - 3a²");
    assert!(sum5 == sum6);
    assert_eq!(sum5.equivalent(&sum6), Some(true));

    // Test sum of terms with same variable and mixed operations
    let sum7 = (a.clone() * a.clone() + a.clone()) / Expr::from(2) + a.clone() * a.clone() * a.clone();
    let sum8 = a.clone() * a.clone() * a.clone() + (a.clone() + a.clone() * a.clone()) / Expr::from(2);
    println!("asserting (a² + a)/2 + a³ == a³ + (a + a²)/2");
    assert!(sum7 == sum8);
    assert_eq!(sum7.equivalent(&sum8), Some(true));
}

#[test]
fn test_complex_expressions() {
    let a = Expr::var("a");
    let b = Expr::var("b");
    let c = Expr::var("c");
    
    // Test complex denominator expressions
    let complex1 = (a.clone() * a.clone() * b.clone()) / ((c.clone() + Expr::from(1)) * (c.clone() + Expr::from(2)));
    let complex2 = (a.clone() * a.clone() * b.clone()) / (c.clone() * c.clone() + c.clone() * 3 + Expr::from(2));
    println!("asserting (a² * b)/((c+1)(c+2)) == (a² * b)/(c² + 3c + 2)");
    assert!(complex1 == complex2);
    assert_eq!(complex1.equivalent(&complex2), Some(true));
}

#[test]
fn test_factor_ordering() {
    let a = Expr::var("a");
    let b = Expr::var("b");
    
    // Test ordering of terms with same base but different exponents
    let expr1 = a.clone() + a.clone() * a.clone() + a.clone() * a.clone() * a.clone();
    let expr2 = a.clone() * a.clone() * a.clone() + a.clone() * a.clone() + a.clone();
    println!("asserting a + a² + a³ == a³ + a² + a");
    assert!(expr1 == expr2);
    assert_eq!(expr1.equivalent(&expr2), Some(true));

    // Test ordering of terms with different bases and exponents
    let expr3 = a.clone() + b.clone() + a.clone() * a.clone() + b.clone() * b.clone();
    let expr4 = b.clone() * b.clone() + a.clone() * a.clone() + b.clone() + a.clone();
    println!("asserting a + b + a² + b² == b² + a² + b + a");
    assert!(expr3 == expr4);
    assert_eq!(expr3.equivalent(&expr4), Some(true));

    // Test ordering with negative exponents
    let expr5 = a.clone() / b.clone() + a.clone() * a.clone() / b.clone();
    let expr6 = a.clone() * a.clone() / b.clone() + a.clone() / b.clone();
    println!("asserting a/b + a²/b == a²/b + a/b");
    assert!(expr5 == expr6);
    assert_eq!(expr5.equivalent(&expr6), Some(true));
}

#[test]
fn test_rational_expression_into_dim() {
    let a = Expr::var("a");
    let b = Expr::var("b");
    let c = Expr::var("c");

    // Test simple constant expressions
    let rational1 = rational_of(
        vec![CanonicalTerm::new(5)],
        vec![CanonicalTerm::new(1)]
    );
    let dim1: Expr = Expr::from_rational(rational1).unwrap();
    assert!(dim1 == Expr::Constant(5));

    // Test simple variable expressions
    let rational2 = rational_of(
        vec![CanonicalTerm::with_var(1, "a".to_string())],
        vec![CanonicalTerm::new(1)]
    );
    let dim2: Expr = Expr::from_rational(rational2).unwrap();
    assert!(dim2 == a.clone());

    // Test expressions with negative coefficients
    let rational3 = rational_of(
        vec![CanonicalTerm::new(-3)],
        vec![CanonicalTerm::new(1)]
    );
    let dim3: Expr = Expr::from_rational(rational3).unwrap();
    let expected3 = Expr::Sum(VecDeque::from([Operand { ty: Type::Negative, expr: Expr::Constant(3) }]));
    assert!(dim3 == expected3);

    // Test simple division
    let rational4 = rational_of(
        vec![CanonicalTerm::with_var(1, "a".to_string())],
        vec![CanonicalTerm::with_var(1, "b".to_string())]
    );
    let dim4: Expr = Expr::from_rational(rational4).unwrap();
    assert!(dim4 == a.clone() / b.clone());

    // Test complex rational expressions
    let rational5 = rational_of(
        vec![
            CanonicalTerm::with_var(2, "a".to_string()),
            CanonicalTerm::with_var(3, "b".to_string())
        ],
        vec![CanonicalTerm::new(6)]
    );
    let dim5: Expr = Expr::from_rational(rational5).unwrap();
    assert!(dim5 == (a.clone() * 2 + b.clone() * 3) / 6);

    // Test expressions with multiple variables and exponents
    let rational6 = rational_of(
        vec![
            CanonicalTerm {
                coef: Rational::from_integer(1),
                factors: vec![
                    Factor { base: "a".to_string(), exponent: 2 },
                    Factor { base: "b".to_string(), exponent: 1 }
                ]
            }
        ],
        vec![
            CanonicalTerm {
                coef: Rational::from_integer(1),
                factors: vec![
                    Factor { base: "c".to_string(), exponent: 2 }
                ]
            }
        ]
    );
    let dim6: Expr = Expr::from_rational(rational6).unwrap();
    assert!(dim6 == (a.clone() * a.clone() * b.clone()) / (c.clone() * c.clone()));

    // Test expressions with negative exponents
    let rational7 = rational_of(
        vec![
            CanonicalTerm {
                coef: Rational::from_integer(1),
                factors: vec![
                    Factor { base: "a".to_string(), exponent: 1 },
                    Factor { base: "b".to_string(), exponent: -1 }
                ]
            }
        ],
        vec![CanonicalTerm::new(1)]
    );
    let dim7: Expr = Expr::from_rational(rational7).unwrap();
    assert!(dim7 == a.clone() / b.clone());

    // Test expressions with multiple terms in numerator and denominator
    let rational8 = rational_of(
        vec![
            CanonicalTerm::with_var(2, "a".to_string()),
            CanonicalTerm::with_var(3, "b".to_string())
        ],
        vec![
            CanonicalTerm::with_var(1, "c".to_string()),
            CanonicalTerm::new(2)
        ]
    );
    let dim8: Expr = Expr::from_rational(rational8).unwrap();
    assert!(dim8 == (a.clone() * 2 + b.clone() * 3) / (c.clone() + 2));

    // Test empty numerator (should become 0)
    let rational9 = rational_of(
        vec![],
        vec![CanonicalTerm::new(1)]
    );
    let dim9: Expr = Expr::from_rational(rational9).unwrap();
    assert!(dim9 == Expr::Constant(0));
}

#[test]
fn test_rational_expression_empty_denominator() {
    let rational = RationalExpression::new(
        vec![CanonicalTerm::new(5)],
        vec![]
    );
    assert_eq!(rational, Err(ExprError::MalformedRationalExpression));
}

#[test]
fn test_rational_function_equivalence() {
    let a = Expr::var("a");
    let b = Expr::var("b");
    let c = Expr::var("c");
    let d = Expr::var("d");

    // Test with common factor
    let rational1 = (a.clone() + b.clone()) / (c.clone() + d.clone());
    let common_factor = a.clone() + b.clone() + c.clone();
    let rational2 = ((a.clone() + b.clone()) * common_factor.clone()) / ((c.clone() + d.clone()) * common_factor);
    println!("asserting (a + b)/(c + d) == ((a + b)(a + b + c))/((c + d)(a + b + c))");
    assert!(rational1 == rational2);
    assert_eq!(rational1.equivalent(&rational2), Some(true));

    // Test with common constant
    let coef1 = (a.clone() + b.clone()) / (c.clone() + d.clone());
    let coef2 = ((a.clone() + b.clone()) * 2) / ((c.clone() + d.clone()) * 2);
    println!("asserting (a + b)/(c + d) == (2(a + b))/(2(c + d))");
    assert!(coef1 == coef2);
    assert_eq!(coef1.equivalent(&coef2), Some(true));

    // Test with different common constants
    let coef3 = ((a.clone() + b.clone()) * 2) / ((c.clone() + d.clone()) * 2);
    let coef4 = ((a.clone() + b.clone()) * 4) / ((c.clone() + d.clone()) * 4);
    println!("asserting (2(a + b))/(2(c + d)) == (4(a + b))/(4(c + d))");
    assert!(coef3 == coef4);
    assert_eq!(coef3.equivalent(&coef4), Some(true));

    // Test with more complex expressions and common factor
    let complex1 = (a.clone() * b.clone() + c.clone()) / (a.clone() + d.clone());
    let common_factor2 = a.clone() * b.clone() + c.clone() + d.clone();
    let complex2 = ((a.clone() * b.clone() + c.clone()) * common_factor2.clone()) / ((a.clone() + d.clone()) * common_factor2);
    println!("asserting (ab + c)/(a + d) == ((ab + c)(ab + c + d))/((a + d)(ab + c + d))");
    assert!(complex1 == complex2);
    assert_eq!(complex1.equivalent(&complex2), Some(true));

    // Test with more complex expressions and common constant
    let coef5 = (a.clone() * b.clone() + c.clone()) / (a.clone() + d.clone());
    let coef6 = ((a.clone() * b.clone() + c.clone()) * 3) / ((a.clone() + d.clone()) * 3);
    println!("asserting (ab + c)/(a + d) == (3(ab + c))/(3(a + d))");
    assert!(coef5 == coef6);
    assert_eq!(coef5.equivalent(&coef6), Some(true));

    // Test with different common constants in complex expressions
    let coef7 = ((a.clone() * b.clone() + c.clone()) * 3) / ((a.clone() + d.clone()) * 3);
    let coef8 = ((a.clone() * b.clone() + c.clone()) * 6) / ((a.clone() + d.clone()) * 6);
    println!("asserting (3(ab + c))/(3(a + d)) == (6(ab + c))/(6(a + d))");
    assert!(coef7 == coef8);
    assert_eq!(coef7.equivalent(&coef8), Some(true));

    // Test with expressions containing constants and common factor
    let const1 = (a.clone() * 2 + b.clone() * 3) / (c.clone() + 4);
    let common_factor3 = a.clone() + b.clone() + c.clone();
    let const2 = ((a.clone() * 2 + b.clone() * 3) * common_factor3.clone()) / ((c.clone() + 4) * common_factor3);
    println!("asserting (2a + 3b)/(c + 4) == ((2a + 3b)(a + b + c))/((c + 4)(a + b + c))");
    assert!(const1 == const2);
    assert_eq!(const1.equivalent(&const2), Some(true));

    // Test with expressions containing constants and common constant
    let coef9 = (a.clone() * 2 + b.clone() * 3) / (c.clone() + 4);
    let coef10 = ((a.clone() * 2 + b.clone() * 3) * 5) / ((c.clone() + 4) * 5);
    println!("asserting (2a + 3b)/(c + 4) == (5(2a + 3b))/(5(c + 4))");
    assert!(coef9 == coef10);
    assert_eq!(coef9.equivalent(&coef10), Some(true));

    // Test with different common constants in expressions with constants
    let coef11 = ((a.clone() * 2 + b.clone() * 3) * 5) / ((c.clone() + 4) * 5);
    let coef12 = ((a.clone() * 2 + b.clone() * 3) * 10) / ((c.clone() + 4) * 10);
    println!("asserting (5(2a + 3b))/(5(c + 4)) == (10(2a + 3b))/(10(c + 4))");
    assert!(coef11 == coef12);
    assert_eq!(coef11.equivalent(&coef12), Some(true));

    // Test with nested expressions and common factor
    let nested1 = ((a.clone() + b.clone()) * c.clone()) / ((a.clone() - b.clone()) * d.clone());
    let common_factor4 = a.clone() * b.clone() + c.clone() * d.clone();
    let nested2 = (((a.clone() + b.clone()) * c.clone()) * common_factor4.clone()) / (((a.clone() - b.clone()) * d.clone()) * common_factor4);
    println!("asserting ((a + b)c)/((a - b)d) == ((a + b)c(ab + cd))/((a - b)d(ab + cd))");
    assert!(nested1 == nested2);
    assert_eq!(nested1.equivalent(&nested2), Some(true));

    // Test with nested expressions and common constant
    let coef13 = ((a.clone() + b.clone()) * c.clone()) / ((a.clone() - b.clone()) * d.clone());
    let coef14 = (((a.clone() + b.clone()) * c.clone()) * 4) / (((a.clone() - b.clone()) * d.clone()) * 4);
    println!("asserting ((a + b)c)/((a - b)d) == (4((a + b)c))/(4((a - b)d))");
    assert!(coef13 == coef14);
    assert_eq!(coef13.equivalent(&coef14), Some(true));

    // Test with different common constants in nested expressions
    let coef15 = (((a.clone() + b.clone()) * c.clone()) * 4) / (((a.clone() - b.clone()) * d.clone()) * 4);
    let coef16 = (((a.clone() + b.clone()) * c.clone()) * 8) / (((a.clone() - b.clone()) * d.clone()) * 8);
    println!("asserting (4((a + b)c))/(4((a - b)d)) == (8((a + b)c))/(8((a - b)d))");
    assert!(coef15 == coef16);
    assert_eq!(coef15.equivalent(&coef16), Some(true));
}

#[test]
fn test_substitute() {
    let a = Expr::var("a");
    let b = Expr::var("b");
    let c = Expr::var("c");

    // Test simple variable substitution
    let expr1 = a.clone() + b.clone();
    let values1 = Bindings::new().with("a", 2).with("b", 3);
    println!("asserting a + b == 5");
    assert_eq!(expr1.substitute(&values1), Ok(5));

    // Test multiplication and division
    let expr2 = (a.clone() * b.clone()) / c.clone();
    let values2 = Bindings::new().with("a", 6).with("b", 4).with("c", 3);
    println!("asserting (ab)/c == 8");
    assert_eq!(expr2.substitute(&values2), Ok(8));

    // Test complex expressions
    let expr3 = (a.clone() * 2 + b.clone() * 3) / (c.clone() + 4);
    let values3 = Bindings::new().with("a", 5).with("b", 10).with("c", 6);
    println!("asserting (2a + 3b)/(c + 4) == 4");
    assert_eq!(expr3.substitute(&values3), Ok(4));

    // Test rational expressions with single-term denominator
    let rational1 = rational_of(
        vec![
            CanonicalTerm::with_var(2, "a".to_string()),
            CanonicalTerm::with_var(3, "b".to_string())
        ],
        vec![CanonicalTerm::new(6)]
    );
    let values4 = Bindings::new().with("a", 6).with("b", 4);
    println!("asserting (2a + 3b)/6 == 4");
    assert_eq!(rational1.substitute(&values4), Ok(Rational::from_integer(4)));

    // Test rational expressions with exponents
    let rational3 = rational_of(
        vec![
            CanonicalTerm {
                coef: Rational::from_integer(1),
                factors: vec![
                    Factor { base: "a".to_string(), exponent: 2 },
                    Factor { base: "b".to_string(), exponent: 1 }
                ]
            }
        ],
        vec![
            CanonicalTerm {
                coef: Rational::from_integer(1),
                factors: vec![
                    Factor { base: "c".to_string(), exponent: 2 }
                ]
            }
        ]
    );
    let values6 = Bindings::new().with("a", 4).with("b", 2).with("c", 2);
    println!("asserting (a²b)/c² == 8");
    assert_eq!(rational3.substitute(&values6), Ok(Rational::from_integer(8)));

    // Test with negative exponents
    let rational5 = rational_of(
        vec![
            CanonicalTerm {
                coef: Rational::from_integer(1),
                factors: vec![
                    Factor { base: "a".to_string(), exponent: 1 },
                    Factor { base: "b".to_string(), exponent: -1 }
                ]
            }
        ],
        vec![CanonicalTerm::new(1)]
    );
    let values9 = Bindings::new().with("a", 6).with("b", 2);
    println!("asserting a/b == 3");
    assert_eq!(rational5.substitute(&values9), Ok(Rational::from_integer(3)));
}

#[test]
fn test_substitute_unknown_variable() {
    let a = Expr::var("a");
    let values = Bindings::new().with("b", 2);
    assert_eq!(a.substitute(&values), Err(ExprError::UnknownVariable));
}

#[test]
fn test_substitute_non_integer_result() {
    let rational = rational_of(
        vec![CanonicalTerm::new(1)],
        vec![CanonicalTerm::new(2)]
    );
    let values = Bindings::new();
    let dim = Expr::Rational(rational);
    assert_eq!(dim.substitute(&values), Err(ExprError::NonIntegerResult));
}

#[test]
fn test_variables() {
    let a = Expr::var("a");
    let b = Expr::var("b");
    let c = Expr::var("c");
    let d = Expr::var("d");

    // Test simple variable
    assert_eq!(a.variables().to_vec(), vec!["a".to_string()]);

    // Test constant
    assert_eq!(Expr::from(1).variables().to_vec(), Vec::<String>::new());

    // Test sum
    let sum = a.clone() + b.clone() + c.clone();
    assert_eq!(sum.variables().to_vec(), vec!["a".to_string(), "b".to_string(), "c".to_string()]);

    // Test product
    let prod = a.clone() * b.clone() * c.clone();
    assert_eq!(prod.variables().to_vec(), vec!["a".to_string(), "b".to_string(), "c".to_string()]);

    // Test complex expression
    let complex = (a.clone() * b.clone() + c.clone()) / (d.clone() + 1);
    assert_eq!(complex.variables().to_vec(), vec!["a".to_string(), "b".to_string(), "c".to_string(), "d".to_string()]);

    // Test rational expression
    let rational = rational_of(
        vec![
            CanonicalTerm::with_var(1, "a".to_string()),
            CanonicalTerm::with_var(1, "b".to_string())
        ],
        vec![
            CanonicalTerm::with_var(1, "c".to_string()),
            CanonicalTerm::new(1)
        ]
    );
    let dim_rational = Expr::Rational(rational);
    assert_eq!(dim_rational.variables().to_vec(), vec!["a".to_string(), "b".to_string(), "c".to_string()]);
}

#[test]
fn test_partial_substitute() {
    let a = Expr::var("a");
    let b = Expr::var("b");
    let c = Expr::var("c");
    let d = Expr::var("d");

    // Test simple partial substitution
    let expr1 = a.clone() + b.clone();
    let values1 = Bindings::new().with("a", 2);
    let result1 = expr1.partial_substitute(&values1).unwrap();
    println!("asserting a + b == 2 + b (a = 2)");
    assert_eq!(result1, Expr::from(2) + b.clone());

    // Test multiplication and division
    let expr2 = (a.clone() * b.clone()) / c.clone();
    let values2 = Bindings::new().with("a", 6).with("c", 3);
    let result2 = expr2.partial_substitute(&values2).unwrap();
    println!("asserting (ab)/c == 2b (a = 6, c = 3)");
    assert_eq!(result2, (Expr::from(6) * b.clone()) / Expr::from(3));

    // Test complex expressions
    let expr3 = (a.clone() * 2 + b.clone() * 3) / (c.clone() + 4);
    let values3 = Bindings::new().with("a", 5).with("c", 6);
    let result3 = expr3.partial_substitute(&values3).unwrap();
    println!("asserting (2a + 3b)/(c + 4) == (10 + 3b)/(6 + 4) (a = 5, c = 6)");
    assert_eq!(result3, (Expr::from(10) + b.clone() * 3) / (Expr::from(6) + 4));

    // Test rational expressions
    let rational = rational_of(
        vec![
            CanonicalTerm::with_var(2, "a".to_string()),
            CanonicalTerm::with_var(3, "b".to_string())
        ],
        vec![CanonicalTerm::new(6)]
    );
    let values4 = Bindings::new().with("a", 6);
    let result4 = rational.partial_substitute(&values4).unwrap();
    println!("asserting (2a + 3b)/6 == 12 + 3b (a = 6)");
    assert_eq!(result4, rational_of(
        vec![
            CanonicalTerm::new(12),
            CanonicalTerm::with_var(3, "b".to_string())
        ],
        vec![CanonicalTerm::new(6)]
    ).simplify().unwrap());

    // Test with exponents
    let rational2 = rational_of(
        vec![
            CanonicalTerm {
                coef: Rational::from_integer(1),
                factors: vec![
                    Factor { base: "a".to_string(), exponent: 2 },
                    Factor { base: "b".to_string(), exponent: 1 }
                ]
            }
        ],
        vec![
            CanonicalTerm {
                coef: Rational::from_integer(1),
                factors: vec![
                    Factor { base: "c".to_string(), exponent: 2 }
                ]
            }
        ]
    );
    let values5 = Bindings::new().with("a", 4).with("c", 2);
    let result5 = rational2.partial_substitute(&values5).unwrap();
    println!("asserting (a²b)/c² == 16b/4 (a = 4, c = 2)");
    assert_eq!(result5, rational_of(
        vec![
            CanonicalTerm {
                coef: Rational::from_integer(16),
                factors: vec![
                    Factor { base: "b".to_string(), exponent: 1 }
                ]
            }
        ],
        vec![
            CanonicalTerm {
                coef: Rational::from_integer(4),
                factors: vec![]
            }
        ]
    ).simplify().unwrap());

    // Test complex nested expressions
    let expr4 = ((a.clone() + b.clone()) * c.clone()) / ((a.clone() - b.clone()) * d.clone());
    let values6 = Bindings::new().with("a", 4).with("c", 2);
    let result6 = expr4.partial_substitute(&values6).unwrap();
    println!("asserting ((a + b)c)/((a - b)d) == ((4 + b)2)/((4 - b)d) (a = 4, c = 2)");
    assert_eq!(result6, ((Expr::from(4) + b.clone()) * Expr::from(2)) / ((Expr::from(4) - b.clone()) * d.clone()));

    // Test expressions with multiple operations
    let expr5 = (a.clone() * b.clone() + c.clone() * Expr::from(2)) / (b.clone() + Expr::from(2));
    let values7 = Bindings::new().with("a", 3).with("c", 4);
    let result7 = expr5.partial_substitute(&values7).unwrap();
    println!("asserting (ab + 2c)/(b + 2) == (3b + 8)/(b + 2) (a = 3, c = 4)");
    assert_eq!(result7, (Expr::from(3) * b.clone() + Expr::from(4) * Expr::from(2)) / (b.clone() + Expr::from(2)));
}

#[test]
fn test_combine_like_terms() {
    // Test combining constant terms
    let terms1 = vec![
        CanonicalTerm::new(1),
        CanonicalTerm::new(2),
        CanonicalTerm::new(3),
    ];
    let result1 = CanonicalTerm::combine_like_terms(terms1).unwrap();
    assert_eq!(result1.len(), 1);
    assert_eq!(result1[0].coef, Rational::from_integer(6));
    assert!(result1[0].factors.is_empty());

    // Test combining terms with zero exponents
    let terms2 = vec![
        CanonicalTerm::new(1),
        CanonicalTerm {
            coef: Rational::from_integer(2),
            factors: vec![
                Factor { base: "a".to_string(), exponent: 0 },
                Factor { base: "b".to_string(), exponent: 0 },
            ],
        },
        CanonicalTerm {
            coef: Rational::from_integer(3),
            factors: vec![
                Factor { base: "c".to_string(), exponent: 0 },
            ],
        },
    ];
    let result2 = CanonicalTerm::combine_like_terms(terms2).unwrap();
    assert_eq!(result2.len(), 1);
    assert_eq!(result2[0].coef, Rational::from_integer(6));
    assert!(result2[0].factors.is_empty());

    // Test combining constant terms with variable terms
    let terms3 = vec![
        CanonicalTerm::new(1),
        CanonicalTerm::with_var(2, "a".to_string()),
        CanonicalTerm::new(3),
        CanonicalTerm::with_var(4, "a".to_string()),
    ];
    let result3 = CanonicalTerm::combine_like_terms(terms3).unwrap();
    assert_eq!(result3.len(), 2);
    assert_eq!(result3[0].coef, Rational::from_integer(4));
    assert!(result3[0].factors.is_empty());
    assert_eq!(result3[1].coef, Rational::from_integer(6));
    assert_eq!(result3[1].factors.len(), 1);
    assert_eq!(result3[1].factors[0].base, "a");
    assert_eq!(result3[1].factors[0].exponent, 1);

    // Test combining terms with zero coefficients
    let terms4 = vec![
        CanonicalTerm::new(1),
        CanonicalTerm::new(-1),
        CanonicalTerm::with_var(2, "a".to_string()),
        CanonicalTerm::with_var(-2, "a".to_string()),
    ];
    let result4 = CanonicalTerm::combine_like_terms(terms4).unwrap();
    assert!(result4.is_empty());

    // Test combining terms with multiple variables
    let terms5 = vec![
        CanonicalTerm::new(1),
        CanonicalTerm::with_var(2, "a".to_string()),
        CanonicalTerm {
            coef: Rational::from_integer(1),
            factors: vec![
                Factor { base: "a".to_string(), exponent: 1 },
                Factor { base: "b".to_string(), exponent: 1 },
            ],
        },
        CanonicalTerm {
            coef: Rational::from_integer(2),
            factors: vec![
                Factor { base: "a".to_string(), exponent: 1 },
                Factor { base: "b".to_string(), exponent: 1 },
            ],
        },
    ];
    let result5 = CanonicalTerm::combine_like_terms(terms5).unwrap();
    assert_eq!(result5.len(), 3);
    assert_eq!(result5[0].coef, Rational::from_integer(1));
    assert!(result5[0].is_constant());
    assert_eq!(result5[1].coef, Rational::from_integer(2));
    assert_eq!(result5[1].factors.len(), 1);
    assert_eq!(result5[1].factors[0].base, "a");
    assert_eq!(result5[2].coef, Rational::from_integer(3));
    assert_eq!(result5[2].factors.len(), 2);
    assert_eq!(result5[2].factors[0].base, "a");
    assert_eq!(result5[2].factors[1].base, "b");

    // Test combining terms with mixed zero and non-zero exponents
    let terms6 = vec![
        CanonicalTerm {
            coef: Rational::from_integer(1),
            factors: vec![
                Factor { base: "a".to_string(), exponent: 0 },
                Factor { base: "b".to_string(), exponent: 1 },
            ],
        },
        CanonicalTerm {
            coef: Rational::from_integer(2),
            factors: vec![
                Factor { base: "a".to_string(), exponent: 1 },
                Factor { base: "b".to_string(), exponent: 0 },
            ],
        },
        CanonicalTerm {
            coef: Rational::from_integer(3),
            factors: vec![
                Factor { base: "a".to_string(), exponent: 0 },
                Factor { base: "b".to_string(), exponent: 0 },
            ],
        },
    ];
    let result6 = CanonicalTerm::combine_like_terms(terms6).unwrap();
    println!("{:?}", result6);
    assert_eq!(result6.len(), 3);
    assert_eq!(result6[0].coef, Rational::from_integer(3));
    assert!(result6[0].is_constant());
    assert_eq!(result6[1].coef, Rational::from_integer(2));
    assert_eq!(result6[1].factors.len(), 1);
    assert_eq!(result6[1].factors[0].base, "a");
    assert_eq!(result6[2].coef, Rational::from_integer(1));
    assert_eq!(result6[2].factors.len(), 1);
    assert_eq!(result6[2].factors[0].base, "b");
}
