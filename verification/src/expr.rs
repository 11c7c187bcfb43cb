use vstd::prelude::*;
use crate::rule::Rule;

verus! {

/// A propositional formula over string-named variables: constants, variables,
/// negation, and n-ary conjunction and disjunction.  Child order inside a
/// conjunction or disjunction carries no logical meaning but is preserved, so
/// that rewriting is deterministic and results compare structurally.
#[derive(Debug, PartialEq, Eq)]
pub enum Expr {
    Constant(bool),
    Variable(String),
    Negation(Box<Expr>),
    Conjunction(Vec<Expr>),
    Disjunction(Vec<Expr>),
}

/// The mathematical shape of a formula: the same tree as [`Expr`], with
/// variable names as character sequences and child lists as sequences.
/// Contracts throughout the crate speak of this shape, reached from an
/// [`Expr`] by `@`.
#[verifier::ext_equal]
pub enum Form {
    Constant(bool),
    Variable(Seq<char>),
    Negation(Box<Form>),
    Conjunction(Seq<Form>),
    Disjunction(Seq<Form>),
}

impl View for Expr {
    type V = Form;

    open spec fn view(&self) -> Form
        decreases self,
    {
        match self {
            Expr::Constant(b) => Form::Constant(*b),
            Expr::Variable(s) => Form::Variable(s@),
            Expr::Negation(e) => Form::Negation(Box::new((**e)@)),
            Expr::Conjunction(es) => Form::Conjunction(
                Seq::new(es@.len(), |i: int| if 0 <= i < es@.len() { es@[i]@ } else { Form::Constant(true) }),
            ),
            Expr::Disjunction(es) => Form::Disjunction(
                Seq::new(es@.len(), |i: int| if 0 <= i < es@.len() { es@[i]@ } else { Form::Constant(true) }),
            ),
        }
    }
}

/// The shapes of the expressions in `es`, in order.
pub open spec fn views_of(es: Seq<Expr>) -> Seq<Form> {
    Seq::new(es.len(), |i: int| es[i]@)
}

/// Taking shapes commutes with concatenation.
pub proof fn lemma_views_of_append(a: Seq<Expr>, b: Seq<Expr>)
    ensures
        views_of(a + b) == views_of(a) + views_of(b),
{
    assert(views_of(a + b) =~= views_of(a) + views_of(b));
}

/// The shape of a conjunction or disjunction is the matching variant over the
/// shapes of its children.
pub proof fn lemma_view_children(es: Vec<Expr>)
    ensures
        Expr::Conjunction(es)@ == Form::Conjunction(views_of(es@)),
        Expr::Disjunction(es)@ == Form::Disjunction(views_of(es@)),
{
    assert(Expr::Conjunction(es)@->Conjunction_0 =~= views_of(es@));
    assert(Expr::Disjunction(es)@->Disjunction_0 =~= views_of(es@));
}

impl Clone for Expr {
    /// Copies the whole tree; the copy has the same shape as the original.
    fn clone(&self) -> (r: Self)
        ensures
            r@ == self@,
        decreases self,
    {
        match self {
            Expr::Constant(b) => Expr::Constant(*b),
            Expr::Variable(s) => Expr::Variable(s.clone()),
            Expr::Negation(e) => Expr::Negation(Box::new((**e).clone())),
            Expr::Conjunction(es) => {
                let r = clone_children(es);
                proof {
                    lemma_view_children(r);
                    assert(views_of(r@) =~= self@->Conjunction_0);
                }
                Expr::Conjunction(r)
            },
            Expr::Disjunction(es) => {
                let r = clone_children(es);
                proof {
                    lemma_view_children(r);
                    assert(views_of(r@) =~= self@->Disjunction_0);
                }
                Expr::Disjunction(r)
            },
        }
    }
}

/// Copies every element of a child list, preserving order.
fn clone_children(es: &Vec<Expr>) -> (r: Vec<Expr>)
    ensures
        r@.len() == es@.len(),
        forall|i: int| 0 <= i < es@.len() ==> r@[i]@ == es@[i]@,
    decreases es,
{
    let mut r: Vec<Expr> = Vec::new();
    let mut k: usize = 0;
    while k < es.len()
        invariant
            k <= es@.len(),
            r@.len() == k,
            forall|i: int| 0 <= i < k ==> r@[i]@ == es@[i]@,
        decreases es@.len() - k,
    {
        proof {
            assert(decreases_to!(es => es@[k as int]));
        }
        r.push(es[k].clone());
        k = k + 1;
    }
    r
}

impl Expr {
    /// Builds the formula that is just the variable named `s`.
    pub fn unit(s: String) -> (r: Self)
        ensures
            r@ == Form::Variable(s@),
    {
        Self::Variable(s)
    }

    /// Builds the negation of `expr`.
    pub fn negation(expr: Self) -> (r: Self)
        ensures
            r@ == Form::Negation(Box::new(expr@)),
    {
        Self::Negation(Box::new(expr))
    }

    /// Builds the conjunction of `exprs`, in the given order.
    pub fn conjunction(exprs: Vec<Self>) -> (r: Self)
        ensures
            r@ == Form::Conjunction(views_of(exprs@)),
    {
        proof {
            lemma_view_children(exprs);
        }
        Self::Conjunction(exprs)
    }

    /// Builds the disjunction of `exprs`, in the given order.
    pub fn disjunction(exprs: Vec<Self>) -> (r: Self)
        ensures
            r@ == Form::Disjunction(views_of(exprs@)),
    {
        proof {
            lemma_view_children(exprs);
        }
        Self::Disjunction(exprs)
    }
}

impl Expr {
    /// One traversal pass of `rule` over this tree.  `Ok` carries the tree
    /// with every node rewritten that this pass could rewrite; `Err` carries
    /// the tree unchanged and says that no node matched.
    pub fn try_simplify<R: Rule>(self, rule: &R) -> (r: Result<Self, Self>)
        ensures
            match r {
                Ok(x) => try_step(rule, self@) == Some(x@),
                Err(x) => x@ == self@ && try_step(rule, self@) is None,
            },
        decreases self@,
    {
        let ghost orig = self@;
        let declined = match rule.apply(self) {
            Ok(stepped) => {
                return Ok(stepped);
            },
            Err(declined) => declined,
        };
        match declined {
            Expr::Constant(b) => Err(Expr::Constant(b)),
            Expr::Variable(name) => Err(Expr::Variable(name)),
            Expr::Negation(inner) => {
                proof {
                    assert(orig == Form::Negation(Box::new((*inner)@)));
                    assert(decreases_to!(orig => orig->Negation_0));
                }
                match (*inner).try_simplify(rule) {
                    Ok(stepped) => Ok(Expr::Negation(Box::new(stepped))),
                    Err(kept) => Err(Expr::Negation(Box::new(kept))),
                }
            },
            Expr::Conjunction(es) => {
                proof {
                    lemma_view_children(es);
                }
                let ghost children = views_of(es@);
                let mut rest = es;
                let mut out: Vec<Expr> = Vec::new();
                let mut changed = false;
                while rest.len() > 0
                    invariant
                        orig == self@,
                        orig == Form::Conjunction(children),
                        children == views_of(es@),
                        rest@.len() <= es@.len(),
                        rest@ =~= es@.skip(es@.len() - rest@.len()),
                        out@.len() == es@.len() - rest@.len(),
                        forall|j: int| 0 <= j < out@.len() ==> out@[j]@ == step_or_keep(
                            rule,
                            children[j],
                        ),
                        changed == exists|j: int|
                            0 <= j < out@.len() && try_step(rule, children[j]) is Some,
                    decreases rest@.len(),
                {
                    let ghost done = es@.len() - rest@.len();
                    let child = rest.remove(0);
                    assert(child@ == children[done]);
                    proof {
                        assert(decreases_to!(orig => orig->Conjunction_0));
                        assert(decreases_to!(orig->Conjunction_0 => children[done]));
                    }
                    match child.try_simplify(rule) {
                        Ok(stepped) => {
                            changed = true;
                            out.push(stepped);
                        },
                        Err(kept) => {
                            out.push(kept);
                        },
                    }
                }
                proof {
                    lemma_view_children(out);
                }
                if changed {
                    proof {
                        assert(views_of(out@) =~= try_step(rule, orig)->Some_0->Conjunction_0);
                    }
                    Ok(Expr::Conjunction(out))
                } else {
                    proof {
                        assert(views_of(out@) =~= children);
                    }
                    Err(Expr::Conjunction(out))
                }
            },
            Expr::Disjunction(es) => {
                proof {
                    lemma_view_children(es);
                }
                let ghost children = views_of(es@);
                let mut rest = es;
                let mut out: Vec<Expr> = Vec::new();
                let mut changed = false;
                while rest.len() > 0
                    invariant
                        orig == self@,
                        orig == Form::Disjunction(children),
                        children == views_of(es@),
                        rest@.len() <= es@.len(),
                        rest@ =~= es@.skip(es@.len() - rest@.len()),
                        out@.len() == es@.len() - rest@.len(),
                        forall|j: int| 0 <= j < out@.len() ==> out@[j]@ == step_or_keep(
                            rule,
                            children[j],
                        ),
                        changed == exists|j: int|
                            0 <= j < out@.len() && try_step(rule, children[j]) is Some,
                    decreases rest@.len(),
                {
                    let ghost done = es@.len() - rest@.len();
                    let child = rest.remove(0);
                    assert(child@ == children[done]);
                    proof {
                        assert(decreases_to!(orig => orig->Disjunction_0));
                        assert(decreases_to!(orig->Disjunction_0 => children[done]));
                    }
                    match child.try_simplify(rule) {
                        Ok(stepped) => {
                            changed = true;
                            out.push(stepped);
                        },
                        Err(kept) => {
                            out.push(kept);
                        },
                    }
                }
                proof {
                    lemma_view_children(out);
                }
                if changed {
                    proof {
                        assert(views_of(out@) =~= try_step(rule, orig)->Some_0->Disjunction_0);
                    }
                    Ok(Expr::Disjunction(out))
                } else {
                    proof {
                        assert(views_of(out@) =~= children);
                    }
                    Err(Expr::Disjunction(out))
                }
            },
        }
    }

    /// Drives `rule` over this tree to a fixpoint: passes repeat until one
    /// changes no node, and that tree is returned.  The caller supplies a
    /// rule set under which the passes converge; see [`converges`].
    #[verifier::rlimit(50)]
    pub fn simplify<R: Rule>(self, rule: &R) -> (r: Self)
        requires
            converges(rule, self@),
        ensures
            r@ == normal_form(rule, self@),
            is_normal(rule, r@),
    {
        let ghost orig = self@;
        let mut cur = self;
        loop
            invariant
                orig == self@,
                converges(rule, cur@),
                normal_form(rule, cur@) == normal_form(rule, orig),
            decreases fuel_to_normal(rule, cur@),
        {
            let ghost before = cur@;
            match cur.try_simplify(rule) {
                Ok(stepped) => {
                    proof {
                        lemma_step_toward_normal_form(rule, before, stepped@);
                    }
                    cur = stepped;
                },
                Err(done) => {
                    proof {
                        lemma_normal_form_of_normal(rule, before);
                    }
                    return done;
                },
            }
        }
    }
}

/// One traversal pass of `rule` over the tree `e`, in the driver's order:
/// the rule is tried at the root first; if it declines there, each child is
/// visited recursively and every child that can make progress is replaced by
/// its stepped form.  `Some` is the rewritten tree; `None` means no node
/// changed.
pub open spec fn try_step<R: Rule>(rule: &R, e: Form) -> Option<Form>
    decreases e,
{
    match rule.step(e) {
        Some(stepped) => Some(stepped),
        None => match e {
            Form::Constant(_) => None,
            Form::Variable(_) => None,
            Form::Negation(inner) => match try_step(rule, *inner) {
                Some(stepped) => Some(Form::Negation(Box::new(stepped))),
                None => None,
            },
            Form::Conjunction(s) => if exists|i: int|
                0 <= i < s.len() && try_step(rule, s[i]) is Some {
                Some(Form::Conjunction(
                    Seq::new(s.len(), |i: int| if 0 <= i < s.len() {
                        match try_step(rule, s[i]) {
                            Some(stepped) => stepped,
                            None => s[i],
                        }
                    } else {
                        Form::Constant(true)
                    }),
                ))
            } else {
                None
            },
            Form::Disjunction(s) => if exists|i: int|
                0 <= i < s.len() && try_step(rule, s[i]) is Some {
                Some(Form::Disjunction(
                    Seq::new(s.len(), |i: int| if 0 <= i < s.len() {
                        match try_step(rule, s[i]) {
                            Some(stepped) => stepped,
                            None => s[i],
                        }
                    } else {
                        Form::Constant(true)
                    }),
                ))
            } else {
                None
            },
        },
    }
}

/// What one pass leaves at `e`: the stepped tree where the pass makes
/// progress, `e` itself where it declines.
pub open spec fn step_or_keep<R: Rule>(rule: &R, e: Form) -> Form {
    match try_step(rule, e) {
        Some(stepped) => stepped,
        None => e,
    }
}

/// No pass of `rule` changes any node of `e`.
pub open spec fn is_normal<R: Rule>(rule: &R, e: Form) -> bool {
    try_step(rule, e) is None
}

/// The tree after `n` passes of `rule` over `e` (fewer if a pass declines
/// earlier; passes after that change nothing).
pub open spec fn iterate<R: Rule>(rule: &R, e: Form, n: nat) -> Form
    decreases n,
{
    if n == 0 {
        e
    } else {
        match try_step(rule, e) {
            Some(stepped) => iterate(rule, stepped, (n - 1) as nat),
            None => e,
        }
    }
}

/// Repeated passes of `rule` over `e` eventually reach a tree that no pass
/// changes.  This is the one assumption `simplify` places on its caller: a
/// rule set that rewrites forever (back and forth, or growing without bound)
/// is a caller error, not a handled failure.
pub open spec fn converges<R: Rule>(rule: &R, e: Form) -> bool {
    exists|n: nat| is_normal(rule, iterate(rule, e, n))
}

/// The number of passes it takes to reach a tree that no pass changes.
pub open spec fn fuel_to_normal<R: Rule>(rule: &R, e: Form) -> nat {
    choose|n: nat|
        is_normal(rule, iterate(rule, e, n)) && forall|m: nat|
            m < n ==> !is_normal(rule, iterate(rule, e, m))
}

/// The fixpoint that repeated passes of `rule` drive `e` to.
pub open spec fn normal_form<R: Rule>(rule: &R, e: Form) -> Form {
    iterate(rule, e, fuel_to_normal(rule, e))
}

/// If `n` passes reach a normal form, `fuel_to_normal` is well defined and is
/// at most `n`.
pub proof fn lemma_least_fuel<R: Rule>(rule: &R, e: Form, n: nat)
    requires
        is_normal(rule, iterate(rule, e, n)),
    ensures
        is_normal(rule, iterate(rule, e, fuel_to_normal(rule, e))),
        fuel_to_normal(rule, e) <= n,
        forall|m: nat| m < fuel_to_normal(rule, e) ==> !is_normal(rule, iterate(rule, e, m)),
    decreases n,
{
    if forall|m: nat| m < n ==> !is_normal(rule, iterate(rule, e, m)) {
        let k = fuel_to_normal(rule, e);
        assert(is_normal(rule, iterate(rule, e, k)) && forall|m: nat|
            m < k ==> !is_normal(rule, iterate(rule, e, m))) by {
            assert(is_normal(rule, iterate(rule, e, n)) && forall|m: nat|
                m < n ==> !is_normal(rule, iterate(rule, e, m)));
        }
        if k > n {
            assert(!is_normal(rule, iterate(rule, e, n)));
        }
    } else {
        let m = choose|m: nat| m < n && is_normal(rule, iterate(rule, e, m));
        lemma_least_fuel(rule, e, m);
    }
}

/// A tree that is already normal is its own normal form, reached with no
/// passes.
pub proof fn lemma_normal_form_of_normal<R: Rule>(rule: &R, e: Form)
    requires
        is_normal(rule, e),
    ensures
        converges(rule, e),
        fuel_to_normal(rule, e) == 0,
        normal_form(rule, e) == e,
{
    assert(iterate(rule, e, 0) == e);
    lemma_least_fuel(rule, e, 0);
}

/// One pass of progress brings the tree strictly closer to the same normal
/// form.
pub proof fn lemma_step_toward_normal_form<R: Rule>(rule: &R, e: Form, stepped: Form)
    requires
        converges(rule, e),
        try_step(rule, e) == Some(stepped),
    ensures
        converges(rule, stepped),
        fuel_to_normal(rule, stepped) < fuel_to_normal(rule, e),
        normal_form(rule, stepped) == normal_form(rule, e),
{
    let n = choose|n: nat| is_normal(rule, iterate(rule, e, n));
    lemma_least_fuel(rule, e, n);
    let k = fuel_to_normal(rule, e);
    assert(k != 0);
    assert(iterate(rule, e, k) == iterate(rule, stepped, (k - 1) as nat));
    lemma_least_fuel(rule, stepped, (k - 1) as nat);
    let j = fuel_to_normal(rule, stepped);
    assert(iterate(rule, e, (j + 1) as nat) == iterate(rule, stepped, j));
    lemma_least_fuel(rule, e, (j + 1) as nat);
    assert(k == j + 1);
}

/// Driving a tree to its normal form twice is the same as driving it once:
/// the normal form of a normal form is itself.
pub proof fn lemma_normal_form_idempotent<R: Rule>(rule: &R, e: Form)
    requires
        converges(rule, e),
    ensures
        converges(rule, normal_form(rule, e)),
        normal_form(rule, normal_form(rule, e)) == normal_form(rule, e),
{
    let n = choose|n: nat| is_normal(rule, iterate(rule, e, n));
    lemma_least_fuel(rule, e, n);
    lemma_normal_form_of_normal(rule, normal_form(rule, e));
}

} // verus!
