//! Symbolic arithmetic over integer constants and named variables.
//!
//! Expressions are built from constants, variables, sums and products, with
//! subtraction and division as sign-tagged operands. They can be lowered to a
//! canonical rational form, compared for equivalence with a three-valued
//! answer, and evaluated in full or in part once variables are bound.
//!
//! The executable part of the library:
//!
//! - [`rational`]: exact fractions of machine integers, with checked
//!   arithmetic;
//! - [`order`], [`ordering`]: the orders on names, factors, terms and
//!   canonical forms;
//! - [`factor`], [`term`], [`terms`]: monomials and lists of them, and the
//!   collecting of like terms;
//! - [`rational_expr`]: the canonical rational form;
//! - [`expr`], [`ops`]: the expression tree and its operators;
//! - [`lower`], [`equivalence`]: lowering, lifting and the equivalence test;
//! - [`bindings`], [`eval`], [`substitute`]: values of variables, and
//!   evaluation in full and in part;
//! - [`variables`]: the names that occur in an expression.
//!
//! The rest is proof. [`normal`] shows that every factor list has a
//! monomial. [`coefficients`], [`ring`], [`meaning`], [`folds`],
//! [`proportion`] and [`lowering`] read canonical forms as polynomials with
//! real coefficients and show that lowering computes sums and products of
//! fractions of them. [`verdicts`] shows when the equivalence test answers
//! yes, and [`laws`] states what follows for the library as a whole.

pub mod bindings;
pub mod coefficients;
pub mod equivalence;
pub mod eval;
pub mod expr;
pub mod factor;
pub mod folds;
pub mod laws;
pub mod lower;
pub mod lowering;
pub mod meaning;
pub mod normal;
pub mod ops;
pub mod order;
pub mod ordering;
pub mod proportion;
pub mod rational;
pub mod rational_expr;
pub mod ring;
pub mod substitute;
pub mod term;
pub mod terms;
pub mod variables;
pub mod verdicts;

pub use crate::bindings::Bindings;
pub use crate::eval::ExprError;
pub use crate::expr::{Expr, Operand, Type};
pub use crate::factor::Factor;
pub use crate::rational::Rational;
pub use crate::rational_expr::RationalExpression;
pub use crate::term::CanonicalTerm;
pub use crate::variables::NameSet;
