use vstd::prelude::*;
use vstd::arithmetic::power::pow;
use crate::expr::Expr;
use crate::expr::Form;
use crate::expr::lemma_view_children;
use crate::expr::lemma_views_of_append;
use crate::expr::views_of;
use crate::expr::try_step;
use crate::expr::is_normal;
use crate::expr::iterate;
use crate::expr::converges;

verus! {

/// One local rewrite step.  `apply` either rewrites the root of the given
/// expression (`Ok`, signaling progress) or declines and hands the expression
/// back unchanged (`Err`).  A rule acts at one node only; visiting children is
/// the driver's job.
///
/// Every implementation also says, as the spec function `step`, exactly which
/// rewrite it performs: `apply` must return `Ok(x)` with `x@ == step(e)` when
/// `step` is defined at the input's shape `e`, and must decline otherwise.
pub trait Rule: Sized {
    /// The rewrite this rule performs at a root of shape `e`, if any.
    spec fn step(&self, e: Form) -> Option<Form>;

    /// Rewrites the root of `expr`, or declines and returns it unchanged.
    fn apply(&self, expr: Expr) -> (r: Result<Expr, Expr>)
        ensures
            match r {
                Ok(x) => self.step(expr@) == Some(x@),
                Err(x) => x@ == expr@ && self.step(expr@) is None,
            },
    ;
}

/// Tries the first rule; only if it declines, tries the second on the same
/// expression.  The composite declines only when both decline, so earlier
/// rules take priority wherever both would match.
pub struct CompositeRule<L, R>(pub L, pub R);

impl<L: Rule, R: Rule> Rule for CompositeRule<L, R> {
    open spec fn step(&self, e: Form) -> Option<Form> {
        match self.0.step(e) {
            Some(stepped) => Some(stepped),
            None => self.1.step(e),
        }
    }

    fn apply(&self, expr: Expr) -> (r: Result<Expr, Expr>) {
        let expr = match self.0.apply(expr) {
            Ok(stepped) => {
                return Ok(stepped);
            },
            Err(declined) => declined,
        };
        let expr = match self.1.apply(expr) {
            Ok(stepped) => {
                return Ok(stepped);
            },
            Err(declined) => declined,
        };
        Err(expr)
    }
}

/// The first rule alone settles what a composite does wherever it matches:
/// the second rule is never consulted there, so exchanging it for any other
/// rule leaves the result unchanged.
pub proof fn lemma_composite_short_circuit<L: Rule, A: Rule, B: Rule>(
    first: L,
    second: A,
    other: B,
    e: Form,
)
    requires
        first.step(e) is Some,
    ensures
        CompositeRule(first, second).step(e) == first.step(e),
        CompositeRule(first, second).step(e) == CompositeRule(first, other).step(e),
{
}

/// Whether some member of `s` is itself a conjunction.
pub open spec fn has_conjunction(s: Seq<Form>) -> bool {
    exists|i: int| 0 <= i < s.len() && s[i] is Conjunction
}

/// Whether some member of `s` is itself a disjunction.
pub open spec fn has_disjunction(s: Seq<Form>) -> bool {
    exists|i: int| 0 <= i < s.len() && s[i] is Disjunction
}

/// The members `e` contributes to an enclosing conjunction: its own children
/// when `e` is a conjunction, else `e` alone.
pub open spec fn conjunction_elements(e: Form) -> Seq<Form> {
    match e {
        Form::Conjunction(inner) => inner,
        _ => seq![e],
    }
}

/// The members `e` contributes to an enclosing disjunction.
pub open spec fn disjunction_elements(e: Form) -> Seq<Form> {
    match e {
        Form::Disjunction(inner) => inner,
        _ => seq![e],
    }
}

/// One level of conjunction flattening: every direct conjunction child is
/// replaced by its elements, in place; every other child passes through.
pub open spec fn splice_conjunctions(s: Seq<Form>) -> Seq<Form>
    decreases s.len(),
{
    if s.len() == 0 {
        Seq::empty()
    } else {
        conjunction_elements(s[0]) + splice_conjunctions(s.drop_first())
    }
}

/// One level of disjunction flattening.
pub open spec fn splice_disjunctions(s: Seq<Form>) -> Seq<Form>
    decreases s.len(),
{
    if s.len() == 0 {
        Seq::empty()
    } else {
        disjunction_elements(s[0]) + splice_disjunctions(s.drop_first())
    }
}

/// Splicing commutes with concatenation.
pub proof fn lemma_splice_append(a: Seq<Form>, b: Seq<Form>)
    ensures
        splice_conjunctions(a + b) == splice_conjunctions(a) + splice_conjunctions(b),
        splice_disjunctions(a + b) == splice_disjunctions(a) + splice_disjunctions(b),
    decreases a.len(),
{
    if a.len() == 0 {
        assert(a + b =~= b);
        assert(splice_conjunctions(a) + splice_conjunctions(b) =~= splice_conjunctions(b));
        assert(splice_disjunctions(a) + splice_disjunctions(b) =~= splice_disjunctions(b));
    } else {
        assert((a + b).drop_first() =~= a.drop_first() + b);
        assert((a + b)[0] == a[0]);
        lemma_splice_append(a.drop_first(), b);
        assert(conjunction_elements(a[0]) + (splice_conjunctions(a.drop_first())
            + splice_conjunctions(b)) =~= (conjunction_elements(a[0])
            + splice_conjunctions(a.drop_first())) + splice_conjunctions(b));
        assert(disjunction_elements(a[0]) + (splice_disjunctions(a.drop_first())
            + splice_disjunctions(b)) =~= (disjunction_elements(a[0])
            + splice_disjunctions(a.drop_first())) + splice_disjunctions(b));
    }
}

/// Splicing a list of one child yields that child's elements.
pub proof fn lemma_splice_one(e: Form)
    ensures
        splice_conjunctions(seq![e]) == conjunction_elements(e),
        splice_disjunctions(seq![e]) == disjunction_elements(e),
{
    let s = seq![e];
    assert(s.len() == 1 && s[0] == e);
    assert(s.drop_first() =~= Seq::<Form>::empty());
    assert(splice_conjunctions(Seq::<Form>::empty()) == Seq::<Form>::empty());
    assert(splice_disjunctions(Seq::<Form>::empty()) == Seq::<Form>::empty());
    assert(conjunction_elements(e) + Seq::<Form>::empty() =~= conjunction_elements(e));
    assert(disjunction_elements(e) + Seq::<Form>::empty() =~= disjunction_elements(e));
}

/// Splicing one more child appends that child's elements.
pub proof fn lemma_splice_push(s: Seq<Form>, e: Form)
    ensures
        splice_conjunctions(s.push(e)) == splice_conjunctions(s) + conjunction_elements(e),
        splice_disjunctions(s.push(e)) == splice_disjunctions(s) + disjunction_elements(e),
{
    assert(s.push(e) =~= s + seq![e]);
    lemma_splice_append(s, seq![e]);
    lemma_splice_one(e);
}

/// Whether some direct child of `es` is a conjunction.
fn contains_conjunction(es: &Vec<Expr>) -> (b: bool)
    ensures
        b == has_conjunction(views_of(es@)),
{
    let mut k: usize = 0;
    while k < es.len()
        invariant
            k <= es@.len(),
            forall|i: int| 0 <= i < k ==> !(views_of(es@)[i] is Conjunction),
        decreases es@.len() - k,
    {
        if let Expr::Conjunction(_) = &es[k] {
            assert(views_of(es@)[k as int] is Conjunction);
            return true;
        }
        k = k + 1;
    }
    false
}

/// Whether some direct child of `es` is a disjunction.
fn contains_disjunction(es: &Vec<Expr>) -> (b: bool)
    ensures
        b == has_disjunction(views_of(es@)),
{
    let mut k: usize = 0;
    while k < es.len()
        invariant
            k <= es@.len(),
            forall|i: int| 0 <= i < k ==> !(views_of(es@)[i] is Disjunction),
        decreases es@.len() - k,
    {
        if let Expr::Disjunction(_) = &es[k] {
            assert(views_of(es@)[k as int] is Disjunction);
            return true;
        }
        k = k + 1;
    }
    false
}

/// Splices every direct conjunction child of `es` into the surrounding list.
fn splice_conjunction_children(es: Vec<Expr>) -> (r: Vec<Expr>)
    ensures
        views_of(r@) == splice_conjunctions(views_of(es@)),
{
    let ghost all = views_of(es@);
    let mut rest = es;
    let mut out: Vec<Expr> = Vec::new();
    while rest.len() > 0
        invariant
            all == views_of(es@),
            rest@.len() <= all.len(),
            rest@ =~= es@.skip(all.len() - rest@.len()),
            views_of(out@) == splice_conjunctions(all.take(all.len() - rest@.len())),
        decreases rest@.len(),
    {
        let ghost done = all.len() - rest@.len();
        let child = rest.remove(0);
        assert(child@ == all[done]);
        proof {
            assert(all.take(done + 1) =~= all.take(done).push(all[done]));
            lemma_splice_push(all.take(done), all[done]);
        }
        match child {
            Expr::Conjunction(mut inner) => {
                proof {
                    lemma_view_children(inner);
                    lemma_views_of_append(out@, inner@);
                }
                out.append(&mut inner);
            },
            other => {
                proof {
                    assert(views_of(out@.push(other)) =~= views_of(out@).push(other@));
                }
                out.push(other);
            },
        }
    }
    assert(all.take(all.len() as int) =~= all);
    out
}

/// Splices every direct disjunction child of `es` into the surrounding list.
fn splice_disjunction_children(es: Vec<Expr>) -> (r: Vec<Expr>)
    ensures
        views_of(r@) == splice_disjunctions(views_of(es@)),
{
    let ghost all = views_of(es@);
    let mut rest = es;
    let mut out: Vec<Expr> = Vec::new();
    while rest.len() > 0
        invariant
            all == views_of(es@),
            rest@.len() <= all.len(),
            rest@ =~= es@.skip(all.len() - rest@.len()),
            views_of(out@) == splice_disjunctions(all.take(all.len() - rest@.len())),
        decreases rest@.len(),
    {
        let ghost done = all.len() - rest@.len();
        let child = rest.remove(0);
        assert(child@ == all[done]);
        proof {
            assert(all.take(done + 1) =~= all.take(done).push(all[done]));
            lemma_splice_push(all.take(done), all[done]);
        }
        match child {
            Expr::Disjunction(mut inner) => {
                proof {
                    lemma_view_children(inner);
                    lemma_views_of_append(out@, inner@);
                }
                out.append(&mut inner);
            },
            other => {
                proof {
                    assert(views_of(out@.push(other)) =~= views_of(out@).push(other@));
                }
                out.push(other);
            },
        }
    }
    assert(all.take(all.len() as int) =~= all);
    out
}

/// Structural housekeeping: eliminates a double negation at the root, or
/// splices nested conjunctions into a conjunction (one level per call), or
/// nested disjunctions into a disjunction.  Declines at every other shape.
pub struct DefaultRule;

impl Rule for DefaultRule {
    open spec fn step(&self, e: Form) -> Option<Form> {
        match e {
            Form::Negation(inner) => match *inner {
                Form::Negation(x) => Some(*x),
                _ => None,
            },
            Form::Conjunction(s) => if has_conjunction(s) {
                Some(Form::Conjunction(splice_conjunctions(s)))
            } else {
                None
            },
            Form::Disjunction(s) => if has_disjunction(s) {
                Some(Form::Disjunction(splice_disjunctions(s)))
            } else {
                None
            },
            _ => None,
        }
    }

    fn apply(&self, expr: Expr) -> (r: Result<Expr, Expr>) {
        match expr {
            Expr::Negation(inner) => match *inner {
                Expr::Negation(x) => {
                    proof {
                        assert(expr@ == Form::Negation(Box::new((*inner)@)));
                    }
                    Ok(*x)
                },
                other => Err(Expr::Negation(Box::new(other))),
            },
            Expr::Conjunction(es) => {
                proof {
                    lemma_view_children(es);
                }
                if contains_conjunction(&es) {
                    let spliced = splice_conjunction_children(es);
                    proof {
                        lemma_view_children(spliced);
                    }
                    Ok(Expr::Conjunction(spliced))
                } else {
                    Err(Expr::Conjunction(es))
                }
            },
            Expr::Disjunction(es) => {
                proof {
                    lemma_view_children(es);
                }
                if contains_disjunction(&es) {
                    let spliced = splice_disjunction_children(es);
                    proof {
                        lemma_view_children(spliced);
                    }
                    Ok(Expr::Disjunction(spliced))
                } else {
                    Err(Expr::Disjunction(es))
                }
            },
            other => Err(other),
        }
    }
}

/// The negation of every member of `s`, in order.
pub open spec fn negate_each(s: Seq<Form>) -> Seq<Form> {
    Seq::new(s.len(), |i: int| Form::Negation(Box::new(s[i])))
}

/// Negates every element of `es`, preserving order.
fn negate_children(es: Vec<Expr>) -> (r: Vec<Expr>)
    ensures
        views_of(r@) == negate_each(views_of(es@)),
{
    let mut rest = es;
    let mut out: Vec<Expr> = Vec::new();
    while rest.len() > 0
        invariant
            rest@.len() <= es@.len(),
            rest@ =~= es@.skip(es@.len() - rest@.len()),
            out@.len() == es@.len() - rest@.len(),
            forall|j: int| 0 <= j < out@.len() ==> out@[j]@ == Form::Negation(
                Box::new(es@[j]@),
            ),
        decreases rest@.len(),
    {
        let ghost done = es@.len() - rest@.len();
        let child = rest.remove(0);
        assert(child@ == es@[done]@);
        out.push(Expr::Negation(Box::new(child)));
    }
    assert(views_of(out@) =~= negate_each(views_of(es@)));
    out
}

/// De Morgan push-down: rewrites the negation of a conjunction to the
/// disjunction of the negated children, and the negation of a disjunction to
/// the conjunction of the negated children.  Declines at every other shape.
pub struct NNFRule;

impl Rule for NNFRule {
    open spec fn step(&self, e: Form) -> Option<Form> {
        match e {
            Form::Negation(inner) => match *inner {
                Form::Conjunction(s) => Some(Form::Disjunction(negate_each(s))),
                Form::Disjunction(s) => Some(Form::Conjunction(negate_each(s))),
                _ => None,
            },
            _ => None,
        }
    }

    fn apply(&self, expr: Expr) -> (r: Result<Expr, Expr>) {
        match expr {
            Expr::Negation(inner) => match *inner {
                Expr::Conjunction(es) => {
                    proof {
                        lemma_view_children(es);
                        assert(expr@ == Form::Negation(
                            Box::new(Form::Conjunction(views_of(es@))),
                        ));
                    }
                    let negs = negate_children(es);
                    proof {
                        lemma_view_children(negs);
                        assert(views_of(negs@) == negate_each(views_of(es@)));
                        assert(self.step(expr@) == Some(
                            Form::Disjunction(negate_each(views_of(es@))),
                        ));
                        assert(Expr::Disjunction(negs)@ == Form::Disjunction(views_of(negs@)));
                    }
                    Ok(Expr::Disjunction(negs))
                },
                Expr::Disjunction(es) => {
                    proof {
                        lemma_view_children(es);
                        assert(expr@ == Form::Negation(
                            Box::new(Form::Disjunction(views_of(es@))),
                        ));
                    }
                    let negs = negate_children(es);
                    proof {
                        lemma_view_children(negs);
                        assert(self.step(expr@) == Some(
                            Form::Conjunction(negate_each(views_of(es@))),
                        ));
                    }
                    Ok(Expr::Conjunction(negs))
                },
                other => {
                    proof {
                        assert(expr@ == Form::Negation(Box::new(other@)));
                        assert(!(other@ is Conjunction) && !(other@ is Disjunction));
                    }
                    Err(Expr::Negation(Box::new(other)))
                },
            },
            other => Err(other),
        }
    }
}

/// The lists `s` contributes to a distributive expansion over an enclosing
/// disjunction: each child's conjunction elements, in child order.
pub open spec fn conjunction_element_lists(s: Seq<Form>) -> Seq<Seq<Form>> {
    Seq::new(s.len(), |i: int| conjunction_elements(s[i]))
}

/// The dual for an enclosing conjunction.
pub open spec fn disjunction_element_lists(s: Seq<Form>) -> Seq<Seq<Form>> {
    Seq::new(s.len(), |i: int| disjunction_elements(s[i]))
}

/// `x` prepended to every combination in `rest`, keeping their order.
pub open spec fn prepend_to_each(x: Form, rest: Seq<Seq<Form>>) -> Seq<Seq<Form>> {
    Seq::new(rest.len(), |i: int| seq![x] + rest[i])
}

/// Every way to pick one member of `xs` and one combination of `rest`,
/// ordered with the choice from `xs` varying slowest.
pub open spec fn product_first(xs: Seq<Form>, rest: Seq<Seq<Form>>) -> Seq<Seq<Form>>
    decreases xs.len(),
{
    if xs.len() == 0 {
        Seq::empty()
    } else {
        prepend_to_each(xs[0], rest) + product_first(xs.drop_first(), rest)
    }
}

/// The full cross product of `ls`: one combination for each way of choosing
/// one element from every list, enumerated with earlier lists varying
/// slowest and each list's own order preserved.
pub open spec fn product(ls: Seq<Seq<Form>>) -> Seq<Seq<Form>>
    decreases ls.len(),
{
    if ls.len() == 0 {
        seq![Seq::<Form>::empty()]
    } else {
        product_first(ls[0], product(ls.drop_first()))
    }
}

/// The clauses of the conjunctive expansion of a disjunction with children
/// `s`: one disjunction per combination of the children's elements.
pub open spec fn cnf_expansion(s: Seq<Form>) -> Seq<Form> {
    Seq::new(
        product(conjunction_element_lists(s)).len(),
        |i: int| Form::Disjunction(product(conjunction_element_lists(s))[i]),
    )
}

/// The dual expansion of a conjunction into a disjunction of conjunctions.
pub open spec fn dnf_expansion(s: Seq<Form>) -> Seq<Form> {
    Seq::new(
        product(disjunction_element_lists(s)).len(),
        |i: int| Form::Conjunction(product(disjunction_element_lists(s))[i]),
    )
}

/// The shapes of a list of child lists.
pub open spec fn list_views(ls: Seq<Vec<Expr>>) -> Seq<Seq<Form>> {
    Seq::new(ls.len(), |i: int| views_of(ls[i]@))
}

/// Appending one more member of `xs` extends the product with that member's
/// combinations.
pub proof fn lemma_product_first_push(xs: Seq<Form>, x: Form, rest: Seq<Seq<Form>>)
    ensures
        product_first(xs.push(x), rest) == product_first(xs, rest) + prepend_to_each(x, rest),
    decreases xs.len(),
{
    if xs.len() == 0 {
        assert(xs.push(x).drop_first() =~= Seq::<Form>::empty());
        assert(product_first(Seq::<Form>::empty(), rest) == Seq::<Seq<Form>>::empty());
        assert(prepend_to_each(x, rest) + Seq::<Seq<Form>>::empty() =~= prepend_to_each(x, rest));
        assert(Seq::<Seq<Form>>::empty() + prepend_to_each(x, rest) =~= prepend_to_each(x, rest));
    } else {
        assert(xs.push(x).drop_first() =~= xs.drop_first().push(x));
        assert(xs.push(x)[0] == xs[0]);
        lemma_product_first_push(xs.drop_first(), x, rest);
        assert(prepend_to_each(xs[0], rest) + (product_first(xs.drop_first(), rest)
            + prepend_to_each(x, rest)) =~= (prepend_to_each(xs[0], rest)
            + product_first(xs.drop_first(), rest)) + prepend_to_each(x, rest));
    }
}

/// Builds one combination: `head` followed by copies of the members of
/// `tail`.
fn build_combination(head: &Expr, tail: &Vec<Expr>) -> (r: Vec<Expr>)
    ensures
        views_of(r@) == seq![head@] + views_of(tail@),
{
    let mut r: Vec<Expr> = Vec::new();
    r.push(head.clone());
    let mut k: usize = 0;
    while k < tail.len()
        invariant
            k <= tail@.len(),
            r@.len() == 1 + k,
            r@[0]@ == head@,
            forall|j: int| 0 <= j < k ==> r@[1 + j]@ == tail@[j]@,
        decreases tail@.len() - k,
    {
        proof {
            assert(decreases_to!(tail => tail@[k as int]));
        }
        r.push(tail[k].clone());
        k = k + 1;
    }
    assert(views_of(r@) =~= seq![head@] + views_of(tail@));
    r
}

/// Computes the cross product of `lists`, copying elements into each
/// combination.
fn product_exec(lists: Vec<Vec<Expr>>) -> (r: Vec<Vec<Expr>>)
    ensures
        list_views(r@) == product(list_views(lists@)),
    decreases lists@.len(),
{
    let mut remaining = lists;
    if remaining.len() == 0 {
        let mut r: Vec<Vec<Expr>> = Vec::new();
        r.push(Vec::new());
        assert(views_of(r@[0]@) =~= Seq::<Form>::empty());
        assert(list_views(r@) =~~= product(list_views(lists@)));
        r
    } else {
        let first = remaining.remove(0);
        let ghost sub = remaining@;
        let rest = product_exec(remaining);
        let ghost combos = list_views(rest@);
        let mut out: Vec<Vec<Expr>> = Vec::new();
        let mut k: usize = 0;
        while k < first.len()
            invariant
                combos == list_views(rest@),
                k <= first@.len(),
                list_views(out@) == product_first(views_of(first@).take(k as int), combos),
            decreases first@.len() - k,
        {
            let ghost xs = views_of(first@);
            let mut j: usize = 0;
            while j < rest.len()
                invariant
                    combos == list_views(rest@),
                    xs == views_of(first@),
                    k < first@.len(),
                    j <= rest@.len(),
                    list_views(out@) == product_first(xs.take(k as int), combos)
                        + prepend_to_each(xs[k as int], combos).take(j as int),
                decreases rest@.len() - j,
            {
                let combo = build_combination(&first[k], &rest[j]);
                proof {
                    assert(views_of(combo@) == prepend_to_each(xs[k as int], combos)[j as int]);
                    assert(list_views(out@.push(combo)) =~= list_views(out@).push(
                        views_of(combo@),
                    ));
                    assert(prepend_to_each(xs[k as int], combos).take(j + 1)
                        =~= prepend_to_each(xs[k as int], combos).take(j as int).push(
                        prepend_to_each(xs[k as int], combos)[j as int],
                    ));
                    assert(list_views(out@) + prepend_to_each(xs[k as int], combos).take(j as int)
                        .push(views_of(combo@)) =~= (list_views(out@) + prepend_to_each(
                        xs[k as int],
                        combos,
                    ).take(j as int)).push(views_of(combo@)));
                }
                out.push(combo);
                j = j + 1;
            }
            proof {
                assert(prepend_to_each(xs[k as int], combos).take(rest@.len() as int)
                    =~= prepend_to_each(xs[k as int], combos));
                assert(xs.take(k + 1) =~= xs.take(k as int).push(xs[k as int]));
                lemma_product_first_push(xs.take(k as int), xs[k as int], combos);
            }
            k = k + 1;
        }
        proof {
            assert(views_of(first@).take(first@.len() as int) =~= views_of(first@));
            assert(list_views(lists@).drop_first() =~= list_views(sub));
            assert(list_views(lists@)[0] == views_of(first@));
        }
        out
    }
}

/// Splits each child into the members it contributes to an enclosing
/// disjunction's expansion: a conjunction child becomes its child list,
/// every other child a list of itself alone.
fn conjunction_element_lists_exec(es: Vec<Expr>) -> (r: Vec<Vec<Expr>>)
    ensures
        list_views(r@) == conjunction_element_lists(views_of(es@)),
{
    let mut rest = es;
    let mut out: Vec<Vec<Expr>> = Vec::new();
    while rest.len() > 0
        invariant
            rest@.len() <= es@.len(),
            rest@ =~= es@.skip(es@.len() - rest@.len()),
            out@.len() == es@.len() - rest@.len(),
            forall|j: int| 0 <= j < out@.len() ==> views_of(out@[j]@) == conjunction_elements(
                views_of(es@)[j],
            ),
        decreases rest@.len(),
    {
        let ghost done = es@.len() - rest@.len();
        let child = rest.remove(0);
        assert(child@ == views_of(es@)[done]);
        match child {
            Expr::Conjunction(inner) => {
                proof {
                    lemma_view_children(inner);
                }
                out.push(inner);
            },
            other => {
                let mut single: Vec<Expr> = Vec::new();
                single.push(other);
                proof {
                    assert(!(other@ is Conjunction));
                    assert(views_of(single@) =~= seq![other@]);
                }
                out.push(single);
            },
        }
    }
    assert(list_views(out@) =~= conjunction_element_lists(views_of(es@)));
    out
}

/// The dual split for an enclosing conjunction's expansion.
fn disjunction_element_lists_exec(es: Vec<Expr>) -> (r: Vec<Vec<Expr>>)
    ensures
        list_views(r@) == disjunction_element_lists(views_of(es@)),
{
    let mut rest = es;
    let mut out: Vec<Vec<Expr>> = Vec::new();
    while rest.len() > 0
        invariant
            rest@.len() <= es@.len(),
            rest@ =~= es@.skip(es@.len() - rest@.len()),
            out@.len() == es@.len() - rest@.len(),
            forall|j: int| 0 <= j < out@.len() ==> views_of(out@[j]@) == disjunction_elements(
                views_of(es@)[j],
            ),
        decreases rest@.len(),
    {
        let ghost done = es@.len() - rest@.len();
        let child = rest.remove(0);
        assert(child@ == views_of(es@)[done]);
        match child {
            Expr::Disjunction(inner) => {
                proof {
                    lemma_view_children(inner);
                }
                out.push(inner);
            },
            other => {
                let mut single: Vec<Expr> = Vec::new();
                single.push(other);
                proof {
                    assert(!(other@ is Disjunction));
                    assert(views_of(single@) =~= seq![other@]);
                }
                out.push(single);
            },
        }
    }
    assert(list_views(out@) =~= disjunction_element_lists(views_of(es@)));
    out
}

/// Reads each combination as one disjunction clause.
fn wrap_disjunctions(combos: Vec<Vec<Expr>>) -> (r: Vec<Expr>)
    ensures
        r@.len() == combos@.len(),
        forall|j: int| 0 <= j < combos@.len() ==> r@[j]@ == Form::Disjunction(
            list_views(combos@)[j],
        ),
{
    let mut rest = combos;
    let mut out: Vec<Expr> = Vec::new();
    while rest.len() > 0
        invariant
            rest@.len() <= combos@.len(),
            rest@ =~= combos@.skip(combos@.len() - rest@.len()),
            out@.len() == combos@.len() - rest@.len(),
            forall|j: int| 0 <= j < out@.len() ==> out@[j]@ == Form::Disjunction(
                list_views(combos@)[j],
            ),
        decreases rest@.len(),
    {
        let ghost done = combos@.len() - rest@.len();
        let combo = rest.remove(0);
        assert(combo@ == combos@[done]@ && views_of(combo@) == list_views(combos@)[done]);
        proof {
            lemma_view_children(combo);
        }
        out.push(Expr::Disjunction(combo));
    }
    out
}

/// Reads each combination as one conjunction clause.
fn wrap_conjunctions(combos: Vec<Vec<Expr>>) -> (r: Vec<Expr>)
    ensures
        r@.len() == combos@.len(),
        forall|j: int| 0 <= j < combos@.len() ==> r@[j]@ == Form::Conjunction(
            list_views(combos@)[j],
        ),
{
    let mut rest = combos;
    let mut out: Vec<Expr> = Vec::new();
    while rest.len() > 0
        invariant
            rest@.len() <= combos@.len(),
            rest@ =~= combos@.skip(combos@.len() - rest@.len()),
            out@.len() == combos@.len() - rest@.len(),
            forall|j: int| 0 <= j < out@.len() ==> out@[j]@ == Form::Conjunction(
                list_views(combos@)[j],
            ),
        decreases rest@.len(),
    {
        let ghost done = combos@.len() - rest@.len();
        let combo = rest.remove(0);
        assert(combo@ == combos@[done]@ && views_of(combo@) == list_views(combos@)[done]);
        proof {
            lemma_view_children(combo);
        }
        out.push(Expr::Conjunction(combo));
    }
    out
}

/// Distributive expansion toward conjunctive normal form: a disjunction with
/// at least one conjunction child becomes the conjunction of one disjunction
/// per combination of the children's elements.  Declines at every other
/// shape.
pub struct CNFRule;

impl Rule for CNFRule {
    open spec fn step(&self, e: Form) -> Option<Form> {
        match e {
            Form::Disjunction(s) => if has_conjunction(s) {
                Some(Form::Conjunction(cnf_expansion(s)))
            } else {
                None
            },
            _ => None,
        }
    }

    fn apply(&self, expr: Expr) -> (r: Result<Expr, Expr>) {
        match expr {
            Expr::Disjunction(es) => {
                proof {
                    lemma_view_children(es);
                }
                let ghost s = views_of(es@);
                if contains_conjunction(&es) {
                    let element_lists = conjunction_element_lists_exec(es);
                    let combos = product_exec(element_lists);
                    let clauses = wrap_disjunctions(combos);
                    proof {
                        lemma_view_children(clauses);
                        assert(views_of(clauses@) =~= cnf_expansion(s));
                    }
                    Ok(Expr::Conjunction(clauses))
                } else {
                    Err(Expr::Disjunction(es))
                }
            },
            other => Err(other),
        }
    }
}

/// The exact dual of [`CNFRule`]: a conjunction with at least one
/// disjunction child becomes the disjunction of one conjunction per
/// combination of the children's elements.
pub struct DNFRule;

impl Rule for DNFRule {
    open spec fn step(&self, e: Form) -> Option<Form> {
        match e {
            Form::Conjunction(s) => if has_disjunction(s) {
                Some(Form::Disjunction(dnf_expansion(s)))
            } else {
                None
            },
            _ => None,
        }
    }

    fn apply(&self, expr: Expr) -> (r: Result<Expr, Expr>) {
        match expr {
            Expr::Conjunction(es) => {
                proof {
                    lemma_view_children(es);
                }
                let ghost s = views_of(es@);
                if contains_disjunction(&es) {
                    let element_lists = disjunction_element_lists_exec(es);
                    let combos = product_exec(element_lists);
                    let clauses = wrap_conjunctions(combos);
                    proof {
                        lemma_view_children(clauses);
                        assert(views_of(clauses@) =~= dnf_expansion(s));
                    }
                    Ok(Expr::Disjunction(clauses))
                } else {
                    Err(Expr::Conjunction(es))
                }
            },
            other => Err(other),
        }
    }
}

/// How many combinations a cross product over `ls` has: the product of the
/// list lengths.
pub open spec fn combination_count(ls: Seq<Seq<Form>>) -> nat
    decreases ls.len(),
{
    if ls.len() == 0 {
        1
    } else {
        ls[0].len() * combination_count(ls.drop_first())
    }
}

/// `product_first` pairs every member of `xs` with every combination of
/// `rest`.
pub proof fn lemma_product_first_len(xs: Seq<Form>, rest: Seq<Seq<Form>>)
    ensures
        product_first(xs, rest).len() == xs.len() * rest.len(),
    decreases xs.len(),
{
    if xs.len() == 0 {
        assert(xs.len() * rest.len() == 0) by (nonlinear_arith)
            requires xs.len() == 0;
    } else {
        lemma_product_first_len(xs.drop_first(), rest);
        assert(rest.len() + (xs.len() - 1) * rest.len() == xs.len() * rest.len())
            by (nonlinear_arith)
            requires xs.len() >= 1;
    }
}

/// The cross product enumerates exactly `combination_count` combinations.
pub proof fn lemma_product_len(ls: Seq<Seq<Form>>)
    ensures
        product(ls).len() == combination_count(ls),
    decreases ls.len(),
{
    if ls.len() != 0 {
        lemma_product_len(ls.drop_first());
        lemma_product_first_len(ls[0], product(ls.drop_first()));
    }
}

/// Over lists that all have `n` members, the combination count is a perfect
/// power.
proof fn lemma_uniform_combination_count(ls: Seq<Seq<Form>>, n: nat)
    requires
        forall|i: int| 0 <= i < ls.len() ==> ls[i].len() == n,
    ensures
        combination_count(ls) == pow(n as int, ls.len() as nat),
    decreases ls.len(),
{
    reveal(pow);
    if ls.len() != 0 {
        assert(ls[0].len() == n);
        assert(forall|i: int| 0 <= i < ls.drop_first().len() ==> ls.drop_first()[i].len() == n);
        lemma_uniform_combination_count(ls.drop_first(), n);
        assert(pow(n as int, ls.len() as nat) == n * pow(n as int, (ls.len() - 1) as nat));
    }
}

/// Boxing carries no content of its own: the boxed tree is the tree.
proof fn lemma_box_roundtrip(x: Form)
    ensures
        *Box::new(x) == x,
{
}

/// For a disjunction whose children are conjunctions of `n` members each,
/// the conjunctive expansion has exactly `n` to the power of the child count
/// clauses, and the rule fires whenever there is at least one child.
pub proof fn lemma_cnf_expansion_count(s: Seq<Form>, n: nat)
    requires
        forall|i: int| 0 <= i < s.len() ==> s[i] is Conjunction,
        forall|i: int| 0 <= i < s.len() ==> conjunction_elements(s[i]).len() == n,
    ensures
        cnf_expansion(s).len() == pow(n as int, s.len() as nat),
        s.len() > 0 ==> CNFRule.step(Form::Disjunction(s)) == Some(
            Form::Conjunction(cnf_expansion(s)),
        ),
{
    lemma_product_len(conjunction_element_lists(s));
    lemma_uniform_combination_count(conjunction_element_lists(s), n);
    if s.len() > 0 {
        assert(s[0] is Conjunction);
        assert(has_conjunction(s));
    }
}

/// The termination measure for the structural rules: atoms weigh one, a
/// negation twice its child, a conjunction or disjunction one more than its
/// children together.  Every rewrite of [`DefaultRule`] and [`NNFRule`]
/// strictly lowers it.
pub open spec fn weight(e: Form) -> nat
    decreases e,
{
    match e {
        Form::Constant(_) => 1,
        Form::Variable(_) => 1,
        Form::Negation(inner) => 2 * weight(*inner),
        Form::Conjunction(s) => 1 + weight_sum(s),
        Form::Disjunction(s) => 1 + weight_sum(s),
    }
}

/// The total weight of a child list.
pub open spec fn weight_sum(s: Seq<Form>) -> nat
    decreases s,
{
    if s.len() == 0 {
        0
    } else {
        weight(s[0]) + weight_sum(s.drop_first())
    }
}

/// A rule whose every rewrite strictly lowers the weight of the tree it is
/// given.  Driving such a rule over a tree always converges; see
/// [`lemma_weight_reducing_converges`].
pub open spec fn reduces_weight<R: Rule>(rule: &R) -> bool {
    forall|e: Form| (#[trigger] rule.step(e)) is Some ==> weight(rule.step(e)->Some_0)
        < weight(e)
}

/// Every tree weighs at least one.
pub proof fn lemma_weight_pos(e: Form)
    ensures
        weight(e) >= 1,
    decreases e,
{
    match e {
        Form::Negation(inner) => {
            lemma_weight_pos(*inner);
        },
        _ => {},
    }
}

/// Summing weights commutes with concatenation.
proof fn lemma_weight_sum_append(a: Seq<Form>, b: Seq<Form>)
    ensures
        weight_sum(a + b) == weight_sum(a) + weight_sum(b),
    decreases a.len(),
{
    if a.len() == 0 {
        assert(a + b =~= b);
    } else {
        assert((a + b).drop_first() =~= a.drop_first() + b);
        assert((a + b)[0] == a[0]);
        lemma_weight_sum_append(a.drop_first(), b);
    }
}

/// A list of one child weighs what the child weighs.
proof fn lemma_weight_sum_single(x: Form)
    ensures
        weight_sum(seq![x]) == weight(x),
{
    assert(seq![x].len() == 1 && seq![x][0] == x);
    assert(seq![x].drop_first() =~= Seq::<Form>::empty());
    assert(weight_sum(Seq::<Form>::empty()) == 0);
}

/// Splicing never raises the total weight, and strictly lowers it when some
/// child is spliced in.
proof fn lemma_splice_weight(s: Seq<Form>)
    ensures
        weight_sum(splice_conjunctions(s)) <= weight_sum(s),
        has_conjunction(s) ==> weight_sum(splice_conjunctions(s)) < weight_sum(s),
        weight_sum(splice_disjunctions(s)) <= weight_sum(s),
        has_disjunction(s) ==> weight_sum(splice_disjunctions(s)) < weight_sum(s),
    decreases s.len(),
{
    if s.len() == 0 {
        assert(!has_conjunction(s));
        assert(!has_disjunction(s));
    } else {
        lemma_splice_weight(s.drop_first());
        lemma_weight_sum_append(
            conjunction_elements(s[0]),
            splice_conjunctions(s.drop_first()),
        );
        lemma_weight_sum_append(
            disjunction_elements(s[0]),
            splice_disjunctions(s.drop_first()),
        );
        lemma_weight_sum_single(s[0]);
        if has_conjunction(s) && !(s[0] is Conjunction) {
            let i = choose|i: int| 0 <= i < s.len() && s[i] is Conjunction;
            assert(s.drop_first()[i - 1] is Conjunction);
            assert(has_conjunction(s.drop_first()));
        }
        if has_disjunction(s) && !(s[0] is Disjunction) {
            let i = choose|i: int| 0 <= i < s.len() && s[i] is Disjunction;
            assert(s.drop_first()[i - 1] is Disjunction);
            assert(has_disjunction(s.drop_first()));
        }
    }
}

/// Negating every child doubles the total weight.
proof fn lemma_negate_each_weight(s: Seq<Form>)
    ensures
        weight_sum(negate_each(s)) == 2 * weight_sum(s),
    decreases s.len(),
{
    if s.len() == 0 {
        assert(negate_each(s) =~= Seq::<Form>::empty());
    } else {
        assert(negate_each(s).drop_first() =~= negate_each(s.drop_first()));
        assert(negate_each(s)[0] == Form::Negation(Box::new(s[0])));
        lemma_box_roundtrip(s[0]);
        assert(weight(Form::Negation(Box::new(s[0]))) == 2 * weight(s[0]));
        lemma_negate_each_weight(s.drop_first());
    }
}

/// Every rewrite of [`DefaultRule`] strictly lowers the weight.
pub proof fn lemma_default_rule_reduces_weight()
    ensures
        reduces_weight(&DefaultRule),
{
    assert forall|e: Form| (#[trigger] DefaultRule.step(e)) is Some implies
        weight(DefaultRule.step(e)->Some_0) < weight(e) by {
        match e {
            Form::Negation(inner) => {
                match *inner {
                    Form::Negation(x) => {
                        lemma_weight_pos(*x);
                        assert(weight(*inner) == 2 * weight(*x));
                        assert(weight(e) == 2 * weight(*inner));
                    },
                    _ => {},
                }
            },
            Form::Conjunction(s) => {
                if has_conjunction(s) {
                    lemma_splice_weight(s);
                    assert(weight(e) == 1 + weight_sum(s));
                    assert(weight(Form::Conjunction(splice_conjunctions(s))) == 1
                        + weight_sum(splice_conjunctions(s)));
                }
            },
            Form::Disjunction(s) => {
                if has_disjunction(s) {
                    lemma_splice_weight(s);
                    assert(weight(e) == 1 + weight_sum(s));
                    assert(weight(Form::Disjunction(splice_disjunctions(s))) == 1
                        + weight_sum(splice_disjunctions(s)));
                }
            },
            _ => {},
        }
    }
}

/// Every rewrite of [`NNFRule`] strictly lowers the weight.
pub proof fn lemma_nnf_rule_reduces_weight()
    ensures
        reduces_weight(&NNFRule),
{
    assert forall|e: Form| (#[trigger] NNFRule.step(e)) is Some implies
        weight(NNFRule.step(e)->Some_0) < weight(e) by {
        match e {
            Form::Negation(inner) => {
                match *inner {
                    Form::Conjunction(s) => {
                        lemma_negate_each_weight(s);
                        assert(weight(*inner) == 1 + weight_sum(s));
                        assert(weight(e) == 2 * weight(*inner));
                    },
                    Form::Disjunction(s) => {
                        lemma_negate_each_weight(s);
                        assert(weight(*inner) == 1 + weight_sum(s));
                        assert(weight(e) == 2 * weight(*inner));
                    },
                    _ => {},
                }
            },
            _ => {},
        }
    }
}

/// A composite of two weight-lowering rules lowers the weight on every
/// rewrite of its own.
pub proof fn lemma_composite_reduces_weight<L: Rule, R: Rule>(composite: &CompositeRule<L, R>)
    requires
        reduces_weight(&composite.0),
        reduces_weight(&composite.1),
    ensures
        reduces_weight(composite),
{
    assert forall|e: Form| (#[trigger] composite.step(e)) is Some implies
        weight(composite.step(e)->Some_0) < weight(e) by {
        assert(composite.0.step(e) is Some || composite.1.step(e) is Some);
    }
}

/// Pointwise no-heavier children give a no-heavier list.
proof fn lemma_weight_sum_pointwise(a: Seq<Form>, b: Seq<Form>)
    requires
        a.len() == b.len(),
        forall|i: int| 0 <= i < a.len() ==> weight(a[i]) <= weight(b[i]),
    ensures
        weight_sum(a) <= weight_sum(b),
    decreases a.len(),
{
    if a.len() != 0 {
        assert(forall|i: int| 0 <= i < a.drop_first().len() ==> weight(a.drop_first()[i])
            <= weight(b.drop_first()[i]));
        lemma_weight_sum_pointwise(a.drop_first(), b.drop_first());
    }
}

/// One strictly lighter child makes the whole list strictly lighter.
proof fn lemma_weight_sum_pointwise_strict(a: Seq<Form>, b: Seq<Form>, witness: int)
    requires
        a.len() == b.len(),
        forall|i: int| 0 <= i < a.len() ==> weight(a[i]) <= weight(b[i]),
        0 <= witness < a.len(),
        weight(a[witness]) < weight(b[witness]),
    ensures
        weight_sum(a) < weight_sum(b),
    decreases a.len(),
{
    assert(forall|i: int| 0 <= i < a.drop_first().len() ==> weight(a.drop_first()[i])
        <= weight(b.drop_first()[i]));
    if witness == 0 {
        lemma_weight_sum_pointwise(a.drop_first(), b.drop_first());
    } else {
        lemma_weight_sum_pointwise_strict(a.drop_first(), b.drop_first(), witness - 1);
    }
}

/// Under a weight-lowering rule, every pass that makes progress strictly
/// lowers the weight of the whole tree.
pub proof fn lemma_try_step_reduces_weight<R: Rule>(rule: &R, e: Form)
    requires
        reduces_weight(rule),
        try_step(rule, e) is Some,
    ensures
        weight(try_step(rule, e)->Some_0) < weight(e),
    decreases e,
{
    if rule.step(e) is Some {
        assert(weight(rule.step(e)->Some_0) < weight(e));
    } else {
        match e {
            Form::Negation(inner) => {
                lemma_try_step_reduces_weight(rule, *inner);
            },
            Form::Conjunction(s) => {
                let stepped = try_step(rule, e)->Some_0->Conjunction_0;
                assert forall|i: int| 0 <= i < s.len() implies weight(stepped[i])
                    <= weight(s[i]) by {
                    if try_step(rule, s[i]) is Some {
                        lemma_try_step_reduces_weight(rule, s[i]);
                    }
                }
                let witness = choose|i: int|
                    0 <= i < s.len() && try_step(rule, s[i]) is Some;
                lemma_try_step_reduces_weight(rule, s[witness]);
                lemma_weight_sum_pointwise_strict(stepped, s, witness);
            },
            Form::Disjunction(s) => {
                let stepped = try_step(rule, e)->Some_0->Disjunction_0;
                assert forall|i: int| 0 <= i < s.len() implies weight(stepped[i])
                    <= weight(s[i]) by {
                    if try_step(rule, s[i]) is Some {
                        lemma_try_step_reduces_weight(rule, s[i]);
                    }
                }
                let witness = choose|i: int|
                    0 <= i < s.len() && try_step(rule, s[i]) is Some;
                lemma_try_step_reduces_weight(rule, s[witness]);
                lemma_weight_sum_pointwise_strict(stepped, s, witness);
            },
            _ => {},
        }
    }
}

/// Driving any weight-lowering rule over any finite tree converges: the
/// passes reach a tree that no pass changes.  [`DefaultRule`], [`NNFRule`]
/// and their composites all lower the weight, so `simplify` terminates for
/// them on every input.
pub proof fn lemma_weight_reducing_converges<R: Rule>(rule: &R, e: Form)
    requires
        reduces_weight(rule),
    ensures
        converges(rule, e),
    decreases weight(e),
{
    if try_step(rule, e) is None {
        assert(iterate(rule, e, 0) == e);
        assert(is_normal(rule, iterate(rule, e, 0)));
    } else {
        let stepped = try_step(rule, e)->Some_0;
        lemma_try_step_reduces_weight(rule, e);
        lemma_weight_reducing_converges(rule, stepped);
        let n = choose|n: nat| is_normal(rule, iterate(rule, stepped, n));
        assert(iterate(rule, e, (n + 1) as nat) == iterate(rule, stepped, n));
        assert(is_normal(rule, iterate(rule, e, (n + 1) as nat)));
    }
}

} // verus!
