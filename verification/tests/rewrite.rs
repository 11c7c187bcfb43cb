use boolrewrite::either::Either;
use boolrewrite::expr::Expr;
use boolrewrite::rule::CNFRule;
use boolrewrite::rule::CompositeRule;
use boolrewrite::rule::DNFRule;
use boolrewrite::rule::DefaultRule;
use boolrewrite::rule::NNFRule;
use boolrewrite::rule::Rule;

fn var(name: &str) -> Expr {
    Expr::unit(name.to_string())
}

#[test]
fn test_expr() {
    let a = var("a");
    let b = var("b");
    let c = var("c");
    let d = var("d");
    let expr = Expr::disjunction(vec![
        Expr::conjunction(vec![
            a.clone(),
            Expr::conjunction(vec![Expr::negation(Expr::negation(b.clone())), c.clone()]),
        ]),
        Expr::negation(Expr::negation(Expr::negation(d.clone()))),
    ]);

    let a = var("a");
    let b = var("b");
    let c = var("c");
    let d = var("d");
    let simplified = Expr::disjunction(vec![
        Expr::conjunction(vec![a, b, c]),
        Expr::negation(d),
    ]);

    let a = var("a");
    let b = var("b");
    let c = var("c");
    let d = var("d");
    let cnf = Expr::conjunction(vec![
        Expr::disjunction(vec![a, Expr::negation(d.clone())]),
        Expr::disjunction(vec![b, Expr::negation(d.clone())]),
        Expr::disjunction(vec![c, Expr::negation(d.clone())]),
    ]);

    let a = var("a");
    let b = var("b");
    let c = var("c");
    let d = var("d");
    let dnf = Expr::disjunction(vec![
        Expr::conjunction(vec![a, b, c]),
        Expr::negation(d),
    ]);

    assert_eq!(
        expr.clone().simplify(&CompositeRule(DefaultRule, NNFRule)),
        simplified
    );
    assert_eq!(
        expr.clone()
            .simplify(&CompositeRule(CompositeRule(DefaultRule, NNFRule), CNFRule)),
        cnf
    );
    assert_eq!(
        expr.clone()
            .simplify(&CompositeRule(CompositeRule(DefaultRule, NNFRule), DNFRule)),
        dnf
    );
}

#[test]
fn test_double_negation() {
    let simplified = Expr::negation(Expr::negation(var("a"))).simplify(&DefaultRule);
    assert_eq!(simplified, var("a"));
}

#[test]
fn test_flattening() {
    let expr = Expr::conjunction(vec![
        var("a"),
        Expr::conjunction(vec![var("b"), var("c")]),
    ]);
    let expected = Expr::conjunction(vec![var("a"), var("b"), var("c")]);
    assert_eq!(expr.simplify(&DefaultRule), expected);
}

#[test]
fn test_nnf_push_down() {
    let expr = Expr::negation(Expr::conjunction(vec![var("a"), var("b")]));
    let expected = Expr::disjunction(vec![
        Expr::negation(var("a")),
        Expr::negation(var("b")),
    ]);
    assert_eq!(expr.simplify(&CompositeRule(DefaultRule, NNFRule)), expected);
}

#[test]
fn test_worked_example_default_rule_only() {
    let expr = Expr::disjunction(vec![
        Expr::conjunction(vec![
            var("a"),
            Expr::conjunction(vec![Expr::negation(Expr::negation(var("b"))), var("c")]),
        ]),
        Expr::negation(Expr::negation(Expr::negation(var("d")))),
    ]);
    let expected = Expr::disjunction(vec![
        Expr::conjunction(vec![var("a"), var("b"), var("c")]),
        Expr::negation(var("d")),
    ]);
    assert_eq!(expr.simplify(&DefaultRule), expected);
}

#[test]
fn test_idempotence_on_worked_example() {
    let rule = CompositeRule(CompositeRule(DefaultRule, NNFRule), CNFRule);
    let expr = Expr::disjunction(vec![
        Expr::conjunction(vec![var("a"), var("b")]),
        Expr::negation(Expr::negation(var("c"))),
    ]);
    let once = expr.clone().simplify(&rule);
    let twice = expr.simplify(&rule).simplify(&rule);
    assert_eq!(once, twice);
}

#[test]
fn test_cartesian_product_size() {
    // A disjunction of two conjunctions with three children each expands to
    // three-to-the-power-of-two clauses.
    let left = Expr::conjunction(vec![var("a"), var("b"), var("c")]);
    let right = Expr::conjunction(vec![var("x"), var("y"), var("z")]);
    let expr = Expr::disjunction(vec![left, right]);
    let expanded = CNFRule.apply(expr).expect("the rule matches");
    match expanded {
        Expr::Conjunction(clauses) => {
            assert_eq!(clauses.len(), 9);
            for clause in &clauses {
                assert!(matches!(clause, Expr::Disjunction(_)));
            }
        }
        other => panic!("expected a conjunction, got {:?}", other),
    }
}

#[test]
fn test_cnf_expansion_order() {
    let expr = Expr::disjunction(vec![
        Expr::conjunction(vec![var("a"), var("b")]),
        var("q"),
    ]);
    let expanded = CNFRule.apply(expr).expect("the rule matches");
    let expected = Expr::conjunction(vec![
        Expr::disjunction(vec![var("a"), var("q")]),
        Expr::disjunction(vec![var("b"), var("q")]),
    ]);
    assert_eq!(expanded, expected);
}

#[test]
fn test_dnf_expansion_order() {
    let expr = Expr::conjunction(vec![
        Expr::disjunction(vec![var("a"), var("b")]),
        var("q"),
    ]);
    let expanded = DNFRule.apply(expr).expect("the rule matches");
    let expected = Expr::disjunction(vec![
        Expr::conjunction(vec![var("a"), var("q")]),
        Expr::conjunction(vec![var("b"), var("q")]),
    ]);
    assert_eq!(expanded, expected);
}

#[test]
fn test_composite_short_circuit_priority() {
    // Both rules match the negated conjunction below; the first of the
    // composite wins, so the double negation collapses before any De Morgan
    // push-down can see it.
    let expr = Expr::negation(Expr::negation(Expr::conjunction(vec![var("a")])));
    let first = CompositeRule(DefaultRule, NNFRule)
        .apply(expr)
        .expect("the first rule matches");
    assert_eq!(first, Expr::conjunction(vec![var("a")]));
}

#[test]
fn test_composite_falls_back() {
    // The first rule declines, so the second is tried on the same expression.
    let expr = Expr::negation(Expr::conjunction(vec![var("a"), var("b")]));
    let stepped = CompositeRule(DefaultRule, NNFRule)
        .apply(expr)
        .expect("the second rule matches");
    let expected = Expr::disjunction(vec![
        Expr::negation(var("a")),
        Expr::negation(var("b")),
    ]);
    assert_eq!(stepped, expected);
}

#[test]
fn test_termination_on_deep_input() {
    // A tower of negations over a nested conjunction: the fixpoint loop must
    // come back, and with an even tower the result is the flattened
    // conjunction.
    let mut expr = Expr::conjunction(vec![
        var("a"),
        Expr::conjunction(vec![var("b"), Expr::conjunction(vec![var("c"), var("d")])]),
    ]);
    for _ in 0..10 {
        expr = Expr::negation(expr);
    }
    let expected = Expr::conjunction(vec![var("a"), var("b"), var("c"), var("d")]);
    assert_eq!(
        expr.simplify(&CompositeRule(DefaultRule, NNFRule)),
        expected
    );
}

#[test]
fn test_rules_decline_atoms() {
    assert_eq!(DefaultRule.apply(var("a")), Err(var("a")));
    assert_eq!(
        DefaultRule.apply(Expr::Constant(true)),
        Err(Expr::Constant(true))
    );
    assert_eq!(NNFRule.apply(var("a")), Err(var("a")));
    assert_eq!(CNFRule.apply(var("a")), Err(var("a")));
    assert_eq!(DNFRule.apply(var("a")), Err(var("a")));
}

#[test]
fn test_flat_rules_decline_without_match() {
    let flat = Expr::conjunction(vec![var("a"), var("b")]);
    assert_eq!(DefaultRule.apply(flat.clone()), Err(flat.clone()));
    assert_eq!(CNFRule.apply(flat.clone()), Err(flat.clone()));
    let no_disjunction = Expr::conjunction(vec![var("a"), var("b")]);
    assert_eq!(DNFRule.apply(no_disjunction.clone()), Err(no_disjunction));
    let _ = flat;
}

#[test]
fn test_empty_conjunction_child_empties_product() {
    // An empty conjunction child contributes no choices, so the whole cross
    // product is empty and the expansion is the empty conjunction.
    let expr = Expr::disjunction(vec![
        Expr::conjunction(vec![]),
        Expr::conjunction(vec![var("a")]),
    ]);
    let expanded = CNFRule.apply(expr).expect("the rule matches");
    assert_eq!(expanded, Expr::conjunction(vec![]));
}

#[test]
fn test_simplify_leaves_normal_forms_alone() {
    let flat = Expr::disjunction(vec![var("a"), Expr::negation(var("b"))]);
    assert_eq!(
        flat.clone()
            .simplify(&CompositeRule(CompositeRule(DefaultRule, NNFRule), CNFRule)),
        flat
    );
}

#[test]
fn test_clone_copies_the_tree() {
    let expr = Expr::disjunction(vec![
        Expr::conjunction(vec![var("a"), Expr::negation(var("b"))]),
        Expr::Constant(false),
    ]);
    assert_eq!(expr.clone(), expr);
}

#[test]
fn test_either_holds_one_of_two() {
    let left: Either<u32, bool> = Either::Left(7);
    let right: Either<u32, bool> = Either::Right(true);
    assert!(matches!(left, Either::Left(7)));
    assert!(matches!(right, Either::Right(true)));
    assert_ne!(left, Either::Left(8));
}
