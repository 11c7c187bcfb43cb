use boolrewrite::clause::Clause;
use boolrewrite::clause::ConjunctiveNormalForm;
use boolrewrite::clause::DisjunctiveNormalForm;
use boolrewrite::clause::Literal;
use boolrewrite::clause::to_cnf;
use boolrewrite::clause::to_dnf;
use boolrewrite::expr::Expr;
use boolrewrite::rule::CNFRule;
use boolrewrite::rule::CompositeRule;
use boolrewrite::rule::DefaultRule;
use boolrewrite::rule::NNFRule;

fn var(name: &str) -> Expr {
    Expr::unit(name.to_string())
}

fn pos(name: &str) -> Literal {
    Literal { ident: name.to_string(), negated: false }
}

fn neg(name: &str) -> Literal {
    Literal { ident: name.to_string(), negated: true }
}

#[test]
fn test_to_cnf_on_worked_example() {
    let tree = Expr::conjunction(vec![
        Expr::disjunction(vec![var("a"), Expr::negation(var("d"))]),
        Expr::disjunction(vec![var("b"), Expr::negation(var("d"))]),
        Expr::disjunction(vec![var("c"), Expr::negation(var("d"))]),
    ]);
    let expected = ConjunctiveNormalForm(vec![
        Clause(vec![pos("a"), neg("d")]),
        Clause(vec![pos("b"), neg("d")]),
        Clause(vec![pos("c"), neg("d")]),
    ]);
    assert_eq!(to_cnf(&tree), Some(expected));
}

#[test]
fn test_to_dnf_on_worked_example() {
    let tree = Expr::disjunction(vec![
        Expr::conjunction(vec![var("a"), var("b"), var("c")]),
        Expr::negation(var("d")),
    ]);
    let expected = DisjunctiveNormalForm(vec![
        Clause(vec![pos("a"), pos("b"), pos("c")]),
        Clause(vec![neg("d")]),
    ]);
    assert_eq!(to_dnf(&tree), Some(expected));
}

#[test]
fn test_to_cnf_accepts_lone_literal() {
    let expected = ConjunctiveNormalForm(vec![Clause(vec![pos("a")])]);
    assert_eq!(to_cnf(&var("a")), Some(expected));
}

#[test]
fn test_to_cnf_declines_non_literal_members() {
    let tree = Expr::negation(Expr::negation(var("a")));
    assert_eq!(to_cnf(&tree), None);
    let nested = Expr::conjunction(vec![Expr::disjunction(vec![Expr::conjunction(vec![
        var("a"),
        var("b"),
    ])])]);
    assert_eq!(to_cnf(&nested), None);
}

#[test]
fn test_to_dnf_declines_non_literal_members() {
    let tree = Expr::disjunction(vec![Expr::conjunction(vec![Expr::negation(
        Expr::conjunction(vec![var("a")]),
    )])]);
    assert_eq!(to_dnf(&tree), None);
}

#[test]
fn test_simplified_tree_translates_to_clauses() {
    let expr = Expr::disjunction(vec![
        Expr::conjunction(vec![var("a"), var("b")]),
        Expr::negation(Expr::negation(var("c"))),
    ]);
    let rule = CompositeRule(CompositeRule(DefaultRule, NNFRule), CNFRule);
    let cnf_tree = expr.simplify(&rule);
    let expected = ConjunctiveNormalForm(vec![
        Clause(vec![pos("a"), pos("c")]),
        Clause(vec![pos("b"), pos("c")]),
    ]);
    assert_eq!(to_cnf(&cnf_tree), Some(expected));
}
