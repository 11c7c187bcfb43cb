use vstd::prelude::*;
use crate::expr::Expr;
use crate::expr::Form;
use crate::expr::views_of;
use crate::rule::conjunction_elements;
use crate::rule::disjunction_elements;

verus! {

/// A variable or its negation as one atomic unit: an identifier plus a
/// negation flag.
#[derive(Debug, PartialEq, Eq)]
pub struct Literal {
    pub ident: String,
    pub negated: bool,
}

/// The mathematical shape of a literal.
#[verifier::ext_equal]
pub struct LiteralShape {
    pub ident: Seq<char>,
    pub negated: bool,
}

impl View for Literal {
    type V = LiteralShape;

    open spec fn view(&self) -> LiteralShape {
        LiteralShape { ident: self.ident@, negated: self.negated }
    }
}

/// An ordered run of literals, read as one disjunction inside a conjunctive
/// normal form and as one conjunction inside a disjunctive one.
#[derive(Debug, PartialEq, Eq)]
pub struct Clause(pub Vec<Literal>);

impl View for Clause {
    type V = Seq<LiteralShape>;

    open spec fn view(&self) -> Seq<LiteralShape> {
        Seq::new(self.0@.len(), |i: int| self.0@[i]@)
    }
}

/// An ordered run of clauses read as their conjunction: each clause is a
/// disjunction of literals.
#[derive(Debug, PartialEq, Eq)]
pub struct ConjunctiveNormalForm(pub Vec<Clause>);

impl View for ConjunctiveNormalForm {
    type V = Seq<Seq<LiteralShape>>;

    open spec fn view(&self) -> Seq<Seq<LiteralShape>> {
        Seq::new(self.0@.len(), |i: int| self.0@[i]@)
    }
}

/// An ordered run of clauses read as their disjunction: each clause is a
/// conjunction of literals.
#[derive(Debug, PartialEq, Eq)]
pub struct DisjunctiveNormalForm(pub Vec<Clause>);

impl View for DisjunctiveNormalForm {
    type V = Seq<Seq<LiteralShape>>;

    open spec fn view(&self) -> Seq<Seq<LiteralShape>> {
        Seq::new(self.0@.len(), |i: int| self.0@[i]@)
    }
}

/// The literal a tree stands for: a variable, or the negation of one.  Any
/// other shape is no literal.
pub open spec fn literal_shape(e: Form) -> Option<LiteralShape> {
    match e {
        Form::Variable(ident) => Some(LiteralShape { ident: ident, negated: false }),
        Form::Negation(inner) => match *inner {
            Form::Variable(ident) => Some(LiteralShape { ident: ident, negated: true }),
            _ => None,
        },
        _ => None,
    }
}

/// The literals the members of one clause stand for, or nothing when some
/// member is no literal.
pub open spec fn clause_shape(members: Seq<Form>) -> Option<Seq<LiteralShape>>
    decreases members.len(),
{
    if members.len() == 0 {
        Some(Seq::empty())
    } else {
        match (literal_shape(members[0]), clause_shape(members.drop_first())) {
            (Some(first), Some(rest)) => Some(seq![first] + rest),
            _ => None,
        }
    }
}

/// One clause per tree, each read as a disjunction of literals, or nothing
/// when some tree does not have that shape.
pub open spec fn disjunction_clause_shapes(trees: Seq<Form>) -> Option<Seq<Seq<LiteralShape>>>
    decreases trees.len(),
{
    if trees.len() == 0 {
        Some(Seq::empty())
    } else {
        match (
            clause_shape(disjunction_elements(trees[0])),
            disjunction_clause_shapes(trees.drop_first()),
        ) {
            (Some(first), Some(rest)) => Some(seq![first] + rest),
            _ => None,
        }
    }
}

/// The dual: each tree read as a conjunction of literals.
pub open spec fn conjunction_clause_shapes(trees: Seq<Form>) -> Option<Seq<Seq<LiteralShape>>>
    decreases trees.len(),
{
    if trees.len() == 0 {
        Some(Seq::empty())
    } else {
        match (
            clause_shape(conjunction_elements(trees[0])),
            conjunction_clause_shapes(trees.drop_first()),
        ) {
            (Some(first), Some(rest)) => Some(seq![first] + rest),
            _ => None,
        }
    }
}

/// What `to_cnf` reads out of a tree: the tree as an outer conjunction whose
/// children are disjunctions of literals.
pub open spec fn cnf_shape(e: Form) -> Option<Seq<Seq<LiteralShape>>> {
    disjunction_clause_shapes(conjunction_elements(e))
}

/// What `to_dnf` reads out of a tree: the tree as an outer disjunction whose
/// children are conjunctions of literals.
pub open spec fn dnf_shape(e: Form) -> Option<Seq<Seq<LiteralShape>>> {
    conjunction_clause_shapes(disjunction_elements(e))
}

/// Reads one tree as a literal.
fn read_literal(e: &Expr) -> (r: Option<Literal>)
    ensures
        match r {
            Some(l) => literal_shape(e@) == Some(l@),
            None => literal_shape(e@) is None,
        },
{
    match e {
        Expr::Variable(ident) => Some(Literal { ident: ident.clone(), negated: false }),
        Expr::Negation(inner) => {
            proof {
                assert(e@ == Form::Negation(Box::new((**inner)@)));
            }
            match &**inner {
                Expr::Variable(ident) => Some(Literal { ident: ident.clone(), negated: true }),
                other => {
                    proof {
                        assert(!(other@ is Variable));
                    }
                    None
                },
            }
        },
        _ => None,
    }
}

/// Reads every member of `es` as a literal, back to front, so that each step
/// mirrors one unfolding of [`clause_shape`].
fn read_clause_members(es: &Vec<Expr>) -> (r: Option<Clause>)
    ensures
        match r {
            Some(c) => clause_shape(views_of(es@)) == Some(c@),
            None => clause_shape(views_of(es@)) is None,
        },
{
    let ghost members = views_of(es@);
    let mut acc: Option<Vec<Literal>> = Some(Vec::new());
    let mut k: usize = es.len();
    proof {
        assert(members.skip(k as int) =~= Seq::<Form>::empty());
    }
    while k > 0
        invariant
            members == views_of(es@),
            k <= es@.len(),
            match acc {
                Some(v) => clause_shape(members.skip(k as int)) == Some(
                    Seq::new(v@.len(), |i: int| v@[i]@),
                ),
                None => clause_shape(members.skip(k as int)) is None,
            },
        decreases k,
    {
        k = k - 1;
        proof {
            assert(members.skip(k as int).drop_first() =~= members.skip(k + 1));
            assert(members.skip(k as int)[0] == members[k as int]);
        }
        let lit = read_literal(&es[k]);
        acc = match (lit, acc) {
            (Some(l), Some(mut v)) => {
                v.insert(0, l);
                proof {
                    assert(Seq::new(v@.len(), |i: int| v@[i]@) =~= seq![l@] + Seq::new(
                        (v@.len() - 1) as nat,
                        |i: int| v@.drop_first()[i]@,
                    ));
                    assert(Seq::new((v@.len() - 1) as nat, |i: int| v@.drop_first()[i]@) =~= Seq::new(
                        v@.drop_first().len(),
                        |i: int| v@.drop_first()[i]@,
                    ));
                }
                Some(v)
            },
            _ => None,
        };
    }
    proof {
        assert(members.skip(0) =~= members);
    }
    match acc {
        Some(v) => {
            let c = Clause(v);
            proof {
                assert(c@ =~= Seq::new(c.0@.len(), |i: int| c.0@[i]@));
            }
            Some(c)
        },
        None => None,
    }
}

/// Reads one tree as a clause of disjoined literals.
fn read_disjunction_clause(e: &Expr) -> (r: Option<Clause>)
    ensures
        match r {
            Some(c) => clause_shape(disjunction_elements(e@)) == Some(c@),
            None => clause_shape(disjunction_elements(e@)) is None,
        },
{
    match e {
        Expr::Disjunction(es) => {
            proof {
                assert(e@->Disjunction_0 =~= views_of(es@));
            }
            read_clause_members(es)
        },
        other => {
            proof {
                assert(!(other@ is Disjunction));
                assert(seq![other@].drop_first() =~= Seq::<Form>::empty());
                assert(clause_shape(Seq::<Form>::empty()) == Some(Seq::<LiteralShape>::empty()));
            }
            match read_literal(other) {
                Some(l) => {
                    let mut v: Vec<Literal> = Vec::new();
                    v.push(l);
                    let c = Clause(v);
                    proof {
                        assert(c@ =~= seq![l@] + Seq::<LiteralShape>::empty());
                    }
                    Some(c)
                },
                None => None,
            }
        },
    }
}

/// Reads one tree as a clause of conjoined literals.
fn read_conjunction_clause(e: &Expr) -> (r: Option<Clause>)
    ensures
        match r {
            Some(c) => clause_shape(conjunction_elements(e@)) == Some(c@),
            None => clause_shape(conjunction_elements(e@)) is None,
        },
{
    match e {
        Expr::Conjunction(es) => {
            proof {
                assert(e@->Conjunction_0 =~= views_of(es@));
            }
            read_clause_members(es)
        },
        other => {
            proof {
                assert(!(other@ is Conjunction));
                assert(seq![other@].drop_first() =~= Seq::<Form>::empty());
                assert(clause_shape(Seq::<Form>::empty()) == Some(Seq::<LiteralShape>::empty()));
            }
            match read_literal(other) {
                Some(l) => {
                    let mut v: Vec<Literal> = Vec::new();
                    v.push(l);
                    let c = Clause(v);
                    proof {
                        assert(c@ =~= seq![l@] + Seq::<LiteralShape>::empty());
                    }
                    Some(c)
                },
                None => None,
            }
        },
    }
}

/// Translates a tree in conjunctive-normal shape into its clause-list form:
/// the tree is read as a conjunction of clauses, each a disjunction of
/// literals, with a lone clause or a lone literal accepted at either level.
/// Returns nothing exactly when the tree does not have that shape.
pub fn to_cnf(expr: &Expr) -> (r: Option<ConjunctiveNormalForm>)
    ensures
        match r {
            Some(cnf) => cnf_shape(expr@) == Some(cnf@),
            None => cnf_shape(expr@) is None,
        },
{
    match expr {
        Expr::Conjunction(es) => {
            proof {
                assert(expr@->Conjunction_0 =~= views_of(es@));
            }
            let ghost trees = views_of(es@);
            let mut acc: Option<Vec<Clause>> = Some(Vec::new());
            let mut k: usize = es.len();
            proof {
                assert(trees.skip(k as int) =~= Seq::<Form>::empty());
            }
            while k > 0
                invariant
                    trees == views_of(es@),
                    k <= es@.len(),
                    match acc {
                        Some(v) => disjunction_clause_shapes(trees.skip(k as int)) == Some(
                            Seq::new(v@.len(), |i: int| v@[i]@),
                        ),
                        None => disjunction_clause_shapes(trees.skip(k as int)) is None,
                    },
                decreases k,
            {
                k = k - 1;
                proof {
                    assert(trees.skip(k as int).drop_first() =~= trees.skip(k + 1));
                    assert(trees.skip(k as int)[0] == trees[k as int]);
                }
                let clause = read_disjunction_clause(&es[k]);
                acc = match (clause, acc) {
                    (Some(c), Some(mut v)) => {
                        v.insert(0, c);
                        proof {
                            assert(Seq::new(v@.len(), |i: int| v@[i]@) =~= seq![c@] + Seq::new(
                                (v@.len() - 1) as nat,
                                |i: int| v@.drop_first()[i]@,
                            ));
                            assert(Seq::new((v@.len() - 1) as nat, |i: int| v@.drop_first()[i]@)
                                =~= Seq::new(
                                v@.drop_first().len(),
                                |i: int| v@.drop_first()[i]@,
                            ));
                        }
                        Some(v)
                    },
                    _ => None,
                };
            }
            proof {
                assert(trees.skip(0) =~= trees);
            }
            match acc {
                Some(v) => {
                    let cnf = ConjunctiveNormalForm(v);
                    proof {
                        assert(cnf@ =~= Seq::new(cnf.0@.len(), |i: int| cnf.0@[i]@));
                    }
                    Some(cnf)
                },
                None => None,
            }
        },
        other => {
            proof {
                assert(!(other@ is Conjunction));
                assert(seq![other@].drop_first() =~= Seq::<Form>::empty());
                assert(disjunction_clause_shapes(Seq::<Form>::empty()) == Some(
                    Seq::<Seq<LiteralShape>>::empty(),
                ));
            }
            match read_disjunction_clause(other) {
                Some(c) => {
                    let mut v: Vec<Clause> = Vec::new();
                    v.push(c);
                    let cnf = ConjunctiveNormalForm(v);
                    proof {
                        assert(cnf@ =~= seq![c@] + Seq::<Seq<LiteralShape>>::empty());
                    }
                    Some(cnf)
                },
                None => None,
            }
        },
    }
}

/// The dual of [`to_cnf`]: reads the tree as a disjunction of clauses, each
/// a conjunction of literals.  Returns nothing exactly when the tree does
/// not have that shape.
pub fn to_dnf(expr: &Expr) -> (r: Option<DisjunctiveNormalForm>)
    ensures
        match r {
            Some(dnf) => dnf_shape(expr@) == Some(dnf@),
            None => dnf_shape(expr@) is None,
        },
{
    match expr {
        Expr::Disjunction(es) => {
            proof {
                assert(expr@->Disjunction_0 =~= views_of(es@));
            }
            let ghost trees = views_of(es@);
            let mut acc: Option<Vec<Clause>> = Some(Vec::new());
            let mut k: usize = es.len();
            proof {
                assert(trees.skip(k as int) =~= Seq::<Form>::empty());
            }
            while k > 0
                invariant
                    trees == views_of(es@),
                    k <= es@.len(),
                    match acc {
                        Some(v) => conjunction_clause_shapes(trees.skip(k as int)) == Some(
                            Seq::new(v@.len(), |i: int| v@[i]@),
                        ),
                        None => conjunction_clause_shapes(trees.skip(k as int)) is None,
                    },
                decreases k,
            {
                k = k - 1;
                proof {
                    assert(trees.skip(k as int).drop_first() =~= trees.skip(k + 1));
                    assert(trees.skip(k as int)[0] == trees[k as int]);
                }
                let clause = read_conjunction_clause(&es[k]);
                acc = match (clause, acc) {
                    (Some(c), Some(mut v)) => {
                        v.insert(0, c);
                        proof {
                            assert(Seq::new(v@.len(), |i: int| v@[i]@) =~= seq![c@] + Seq::new(
                                (v@.len() - 1) as nat,
                                |i: int| v@.drop_first()[i]@,
                            ));
                            assert(Seq::new((v@.len() - 1) as nat, |i: int| v@.drop_first()[i]@)
                                =~= Seq::new(
                                v@.drop_first().len(),
                                |i: int| v@.drop_first()[i]@,
                            ));
                        }
                        Some(v)
                    },
                    _ => None,
                };
            }
            proof {
                assert(trees.skip(0) =~= trees);
            }
            match acc {
                Some(v) => {
                    let dnf = DisjunctiveNormalForm(v);
                    proof {
                        assert(dnf@ =~= Seq::new(dnf.0@.len(), |i: int| dnf.0@[i]@));
                    }
                    Some(dnf)
                },
                None => None,
            }
        },
        other => {
            proof {
                assert(!(other@ is Disjunction));
                assert(seq![other@].drop_first() =~= Seq::<Form>::empty());
                assert(conjunction_clause_shapes(Seq::<Form>::empty()) == Some(
                    Seq::<Seq<LiteralShape>>::empty(),
                ));
            }
            match read_conjunction_clause(other) {
                Some(c) => {
                    let mut v: Vec<Clause> = Vec::new();
                    v.push(c);
                    let dnf = DisjunctiveNormalForm(v);
                    proof {
                        assert(dnf@ =~= seq![c@] + Seq::<Seq<LiteralShape>>::empty());
                    }
                    Some(dnf)
                },
                None => None,
            }
        },
    }
}

} // verus!
