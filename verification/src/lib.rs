//! A term-rewriting engine for propositional boolean formulas.
//!
//! A formula is an [`expr::Expr`] tree; a [`rule::Rule`] rewrites one node at
//! a time, and [`expr::Expr::simplify`] drives a rule over the whole tree to a
//! fixpoint.  The concrete rules flatten associative structure, push negation
//! toward the leaves, and expand distributive products toward conjunctive or
//! disjunctive normal form; [`clause::to_cnf`] and [`clause::to_dnf`] read a
//! tree already in normal shape out into clause lists.

pub mod clause;
pub mod either;
pub mod expr;
pub mod rule;
