//! Unification: equating two terms by binding variables in the store.

use vstd::prelude::*;
use crate::error::DeriveError;
use crate::store::{
    extends, lemma_extends_transitive, lemma_push_wf, lemma_walk_extends, lemma_walk_fixed,
    lemma_walk_push, lemma_walk_unbound, trail_wf, walk, BindingView, Store, StoreView,
};
use crate::term::{
    list_len, List, ListView, PredView, Predicate, Term, TermView, VarView, Variable,
};

verus! {

/// The trail after unifying `a` with `b`, or why they do not unify.
///
/// Both sides are dereferenced first. Equal variables unify as they are; an
/// unbound variable is bound to the other side, the left one if both are
/// variables; two predicates unify when their names are equal and their
/// arguments unify; two lists unify element by element, left to right.
/// Entering the arguments of a predicate or the elements of a list takes one
/// level of `depth`.
pub open spec fn unify_terms(trail: Seq<BindingView>, a: TermView, b: TermView, depth: nat) -> Result<
    Seq<BindingView>,
    DeriveError,
>
    decreases depth, 1nat,
{
    let x = walk(trail, a);
    let y = walk(trail, b);
    match (x, y) {
        (TermView::Var(v), TermView::Var(w)) => if v == w {
            Ok(trail)
        } else {
            Ok(trail.push(BindingView { var: v, term: y }))
        },
        (TermView::Var(v), _) => Ok(trail.push(BindingView { var: v, term: y })),
        (_, TermView::Var(w)) => Ok(trail.push(BindingView { var: w, term: x })),
        (TermView::Pred(p), TermView::Pred(q)) => unify_preds(trail, p, q, depth),
        (TermView::List(l), TermView::List(m)) => if depth == 0 {
            Err(DeriveError::DepthExceeded)
        } else {
            unify_lists(trail, l, m, (depth - 1) as nat)
        },
        _ => Err(DeriveError::TypeMismatch),
    }
}

/// The trail after unifying two predicates: their names must be equal,
/// and their arguments unify as lists, one level deeper.
pub open spec fn unify_preds(trail: Seq<BindingView>, p: PredView, q: PredView, depth: nat) -> Result<
    Seq<BindingView>,
    DeriveError,
>
    decreases depth, 0nat,
{
    if p.name != q.name {
        Err(DeriveError::NameMismatch)
    } else if depth == 0 {
        Err(DeriveError::DepthExceeded)
    } else {
        unify_lists(trail, p.args, q.args, (depth - 1) as nat)
    }
}

/// The trail after unifying two lists: element by element, left to right,
/// each under the bindings that the elements before it have left. Lists of
/// different lengths do not unify.
pub open spec fn unify_lists(trail: Seq<BindingView>, l: ListView, m: ListView, depth: nat) -> Result<
    Seq<BindingView>,
    DeriveError,
>
    decreases depth, 2 + list_len(l),
{
    match (l, m) {
        (ListView::Nil, ListView::Nil) => Ok(trail),
        (ListView::Cons(h1, t1), ListView::Cons(h2, t2)) => match unify_terms(trail, *h1, *h2, depth) {
            Ok(next) => unify_lists(next, *t1, *t2, depth),
            Err(e) => Err(e),
        },
        _ => Err(DeriveError::ArityMismatch),
    }
}

/// Unification only adds bindings, and keeps the trail well formed.
pub proof fn lemma_unify_terms_extends(trail: Seq<BindingView>, a: TermView, b: TermView, depth: nat)
    requires
        trail_wf(trail),
    ensures
        unify_terms(trail, a, b, depth) matches Ok(after) ==> trail_wf(after) && extends(after, trail),
    decreases depth, 1nat,
{
    let x = walk(trail, a);
    let y = walk(trail, b);
    lemma_walk_unbound(trail, a);
    lemma_walk_unbound(trail, b);
    assert(trail.take(trail.len() as int) == trail);
    match (x, y) {
        (TermView::Var(v), TermView::Var(w)) => {
            if v != w {
                lemma_push_wf(trail, BindingView { var: v, term: y });
            }
        },
        (TermView::Var(v), _) => {
            lemma_push_wf(trail, BindingView { var: v, term: y });
        },
        (_, TermView::Var(w)) => {
            lemma_push_wf(trail, BindingView { var: w, term: x });
        },
        (TermView::Pred(p), TermView::Pred(q)) => {
            lemma_unify_preds_extends(trail, p, q, depth);
        },
        (TermView::List(l), TermView::List(m)) => {
            if depth > 0 {
                lemma_unify_lists_extends(trail, l, m, (depth - 1) as nat);
            }
        },
        _ => {},
    }
}

/// Unification of predicates only adds bindings, and keeps the trail well
/// formed.
pub proof fn lemma_unify_preds_extends(trail: Seq<BindingView>, p: PredView, q: PredView, depth: nat)
    requires
        trail_wf(trail),
    ensures
        unify_preds(trail, p, q, depth) matches Ok(after) ==> trail_wf(after) && extends(after, trail),
    decreases depth, 0nat,
{
    if p.name == q.name && depth > 0 {
        lemma_unify_lists_extends(trail, p.args, q.args, (depth - 1) as nat);
    }
}

/// Unification of lists only adds bindings, and keeps the trail well
/// formed.
pub proof fn lemma_unify_lists_extends(trail: Seq<BindingView>, l: ListView, m: ListView, depth: nat)
    requires
        trail_wf(trail),
    ensures
        unify_lists(trail, l, m, depth) matches Ok(after) ==> trail_wf(after) && extends(after, trail),
    decreases depth, 2 + list_len(l),
{
    assert(trail.take(trail.len() as int) == trail);
    match (l, m) {
        (ListView::Cons(h1, t1), ListView::Cons(h2, t2)) => {
            lemma_unify_terms_extends(trail, *h1, *h2, depth);
            match unify_terms(trail, *h1, *h2, depth) {
                Ok(next) => {
                    lemma_unify_lists_extends(next, *t1, *t2, depth);
                    match unify_lists(next, *t1, *t2, depth) {
                        Ok(after) => {
                            lemma_extends_transitive(after, next, trail);
                        },
                        _ => {},
                    }
                },
                _ => {},
            }
        },
        _ => {},
    }
}

/// Whether `a` and `b`, read through the bindings of `trail`, are the same
/// tree as far as `n` levels down: the same variable, or predicates of the
/// same name, or lists, whose arguments or elements are the same one level
/// less far down.
pub open spec fn agree(trail: Seq<BindingView>, a: TermView, b: TermView, n: nat) -> bool
    decreases n, 0nat,
{
    n == 0 || match (walk(trail, a), walk(trail, b)) {
        (TermView::Var(v), TermView::Var(w)) => v == w,
        (TermView::Pred(p), TermView::Pred(q)) => p.name == q.name && agree_lists(
            trail,
            p.args,
            q.args,
            (n - 1) as nat,
        ),
        (TermView::List(l), TermView::List(m)) => agree_lists(trail, l, m, (n - 1) as nat),
        _ => false,
    }
}

/// Whether two lists have the same length and their elements agree in pairs.
pub open spec fn agree_lists(trail: Seq<BindingView>, l: ListView, m: ListView, n: nat) -> bool
    decreases n, 1 + list_len(l),
{
    match (l, m) {
        (ListView::Nil, ListView::Nil) => true,
        (ListView::Cons(h1, t1), ListView::Cons(h2, t2)) => agree(trail, *h1, *h2, n) && agree_lists(
            trail,
            *t1,
            *t2,
            n,
        ),
        _ => false,
    }
}

/// A term agrees with itself.
pub proof fn lemma_agree_reflexive(trail: Seq<BindingView>, a: TermView, n: nat)
    ensures
        agree(trail, a, a, n),
    decreases n, 0nat,
{
    if n > 0 {
        match walk(trail, a) {
            TermView::Var(_) => {},
            TermView::Pred(p) => {
                lemma_agree_lists_reflexive(trail, p.args, (n - 1) as nat);
            },
            TermView::List(l) => {
                lemma_agree_lists_reflexive(trail, l, (n - 1) as nat);
            },
        }
    }
}

/// A list agrees with itself.
pub proof fn lemma_agree_lists_reflexive(trail: Seq<BindingView>, l: ListView, n: nat)
    ensures
        agree_lists(trail, l, l, n),
    decreases n, 1 + list_len(l),
{
    match l {
        ListView::Nil => {},
        ListView::Cons(h, t) => {
            lemma_agree_reflexive(trail, *h, n);
            lemma_agree_lists_reflexive(trail, *t, n);
        },
    }
}

/// Terms that walk to the same term agree.
pub proof fn lemma_agree_same_walk(trail: Seq<BindingView>, a: TermView, b: TermView, n: nat)
    requires
        walk(trail, a) == walk(trail, b),
    ensures
        agree(trail, a, b, n),
{
    lemma_agree_reflexive(trail, a, n);
}

/// Terms that agree under a trail agree under every trail that extends it.
pub proof fn lemma_agree_extends(
    longer: Seq<BindingView>,
    shorter: Seq<BindingView>,
    a: TermView,
    b: TermView,
    n: nat,
)
    requires
        trail_wf(shorter),
        extends(longer, shorter),
        agree(shorter, a, b, n),
    ensures
        agree(longer, a, b, n),
    decreases n, 0nat,
{
    if n > 0 {
        let x = walk(shorter, a);
        let y = walk(shorter, b);
        lemma_walk_extends(longer, shorter, a);
        lemma_walk_extends(longer, shorter, b);
        match (x, y) {
            (TermView::Var(v), TermView::Var(w)) => {
                lemma_agree_same_walk(longer, a, b, n);
            },
            (TermView::Pred(p), TermView::Pred(q)) => {
                lemma_walk_fixed(longer, x);
                lemma_walk_fixed(longer, y);
                lemma_agree_lists_extends(longer, shorter, p.args, q.args, (n - 1) as nat);
            },
            (TermView::List(l), TermView::List(m)) => {
                lemma_walk_fixed(longer, x);
                lemma_walk_fixed(longer, y);
                lemma_agree_lists_extends(longer, shorter, l, m, (n - 1) as nat);
            },
            _ => {},
        }
    }
}

/// Lists that agree under a trail agree under every trail that extends it.
pub proof fn lemma_agree_lists_extends(
    longer: Seq<BindingView>,
    shorter: Seq<BindingView>,
    l: ListView,
    m: ListView,
    n: nat,
)
    requires
        trail_wf(shorter),
        extends(longer, shorter),
        agree_lists(shorter, l, m, n),
    ensures
        agree_lists(longer, l, m, n),
    decreases n, 1 + list_len(l),
{
    match (l, m) {
        (ListView::Cons(h1, t1), ListView::Cons(h2, t2)) => {
            lemma_agree_extends(longer, shorter, *h1, *h2, n);
            lemma_agree_lists_extends(longer, shorter, *t1, *t2, n);
        },
        _ => {},
    }
}

/// Binding the variable that one term walks to to what the other walks to
/// makes the two agree.
proof fn lemma_bind_agrees(trail: Seq<BindingView>, a: TermView, b: TermView, v: VarView, n: nat)
    requires
        trail_wf(trail),
        walk(trail, a) == TermView::Var(v),
        walk(trail, b) != TermView::Var(v),
    ensures
        agree(trail.push(BindingView { var: v, term: walk(trail, b) }), a, b, n),
        agree(trail.push(BindingView { var: v, term: walk(trail, b) }), b, a, n),
{
    let y = walk(trail, b);
    let after = trail.push(BindingView { var: v, term: y });
    lemma_walk_push(trail, BindingView { var: v, term: y }, a);
    lemma_walk_push(trail, BindingView { var: v, term: y }, b);
    assert(walk(after, a) == y);
    assert(walk(after, b) == y);
    lemma_agree_same_walk(after, a, b, n);
    lemma_agree_same_walk(after, b, a, n);
}

/// After a successful unification the two terms, read through the
/// bindings, are the same tree to every depth.
pub proof fn lemma_unify_terms_agree(trail: Seq<BindingView>, a: TermView, b: TermView, depth: nat, n: nat)
    requires
        trail_wf(trail),
        unify_terms(trail, a, b, depth) is Ok,
    ensures
        agree(unify_terms(trail, a, b, depth)->Ok_0, a, b, n),
    decreases depth, 1nat,
{
    let x = walk(trail, a);
    let y = walk(trail, b);
    let after = unify_terms(trail, a, b, depth)->Ok_0;
    lemma_unify_terms_extends(trail, a, b, depth);
    match (x, y) {
        (TermView::Var(v), TermView::Var(w)) => {
            if v == w {
                lemma_agree_same_walk(trail, a, b, n);
            } else {
                lemma_bind_agrees(trail, a, b, v, n);
            }
        },
        (TermView::Var(v), _) => {
            lemma_bind_agrees(trail, a, b, v, n);
        },
        (_, TermView::Var(w)) => {
            lemma_bind_agrees(trail, b, a, w, n);
        },
        (TermView::Pred(p), TermView::Pred(q)) => {
            lemma_walk_extends(after, trail, a);
            lemma_walk_extends(after, trail, b);
            lemma_walk_fixed(after, x);
            lemma_walk_fixed(after, y);
            if n > 0 {
                lemma_unify_lists_agree(trail, p.args, q.args, (depth - 1) as nat, (n - 1) as nat);
            }
        },
        (TermView::List(l), TermView::List(m)) => {
            lemma_walk_extends(after, trail, a);
            lemma_walk_extends(after, trail, b);
            lemma_walk_fixed(after, x);
            lemma_walk_fixed(after, y);
            if n > 0 {
                lemma_unify_lists_agree(trail, l, m, (depth - 1) as nat, (n - 1) as nat);
            }
        },
        _ => {},
    }
}

/// After a successful unification of two predicates their names are equal
/// and their arguments agree to every depth.
pub proof fn lemma_unify_preds_agree(trail: Seq<BindingView>, p: PredView, q: PredView, depth: nat, n: nat)
    requires
        trail_wf(trail),
        unify_preds(trail, p, q, depth) is Ok,
    ensures
        p.name == q.name,
        agree_lists(unify_preds(trail, p, q, depth)->Ok_0, p.args, q.args, n),
{
    lemma_unify_lists_agree(trail, p.args, q.args, (depth - 1) as nat, n);
}

/// After a successful unification of two lists they have the same length
/// and their elements agree to every depth.
pub proof fn lemma_unify_lists_agree(trail: Seq<BindingView>, l: ListView, m: ListView, depth: nat, n: nat)
    requires
        trail_wf(trail),
        unify_lists(trail, l, m, depth) is Ok,
    ensures
        agree_lists(unify_lists(trail, l, m, depth)->Ok_0, l, m, n),
    decreases depth, 2 + list_len(l),
{
    match (l, m) {
        (ListView::Cons(h1, t1), ListView::Cons(h2, t2)) => {
            let next = unify_terms(trail, *h1, *h2, depth)->Ok_0;
            let after = unify_lists(next, *t1, *t2, depth)->Ok_0;
            lemma_unify_terms_extends(trail, *h1, *h2, depth);
            lemma_unify_terms_agree(trail, *h1, *h2, depth, n);
            lemma_unify_lists_extends(next, *t1, *t2, depth);
            lemma_unify_lists_agree(next, *t1, *t2, depth, n);
            lemma_agree_extends(after, next, *h1, *h2, n);
        },
        _ => {},
    }
}

/// A verdict that is not `DepthExceeded` does not depend on the depth: at
/// every greater depth the unification ends in the same way.
pub proof fn lemma_unify_terms_deeper(
    trail: Seq<BindingView>,
    a: TermView,
    b: TermView,
    depth: nat,
    deeper: nat,
)
    requires
        depth <= deeper,
        unify_terms(trail, a, b, depth) != Err::<Seq<BindingView>, DeriveError>(
            DeriveError::DepthExceeded,
        ),
    ensures
        unify_terms(trail, a, b, deeper) == unify_terms(trail, a, b, depth),
    decreases depth, 1nat,
{
    match (walk(trail, a), walk(trail, b)) {
        (TermView::Pred(p), TermView::Pred(q)) => {
            lemma_unify_preds_deeper(trail, p, q, depth, deeper);
        },
        (TermView::List(l), TermView::List(m)) => {
            lemma_unify_lists_deeper(trail, l, m, (depth - 1) as nat, (deeper - 1) as nat);
        },
        _ => {},
    }
}

/// For predicates: a verdict that is not `DepthExceeded` does not depend on
/// the depth.
pub proof fn lemma_unify_preds_deeper(
    trail: Seq<BindingView>,
    p: PredView,
    q: PredView,
    depth: nat,
    deeper: nat,
)
    requires
        depth <= deeper,
        unify_preds(trail, p, q, depth) != Err::<Seq<BindingView>, DeriveError>(
            DeriveError::DepthExceeded,
        ),
    ensures
        unify_preds(trail, p, q, deeper) == unify_preds(trail, p, q, depth),
    decreases depth, 0nat,
{
    if p.name == q.name {
        lemma_unify_lists_deeper(trail, p.args, q.args, (depth - 1) as nat, (deeper - 1) as nat);
    }
}

/// For lists: a verdict that is not `DepthExceeded` does not depend on the
/// depth.
pub proof fn lemma_unify_lists_deeper(
    trail: Seq<BindingView>,
    l: ListView,
    m: ListView,
    depth: nat,
    deeper: nat,
)
    requires
        depth <= deeper,
        unify_lists(trail, l, m, depth) != Err::<Seq<BindingView>, DeriveError>(
            DeriveError::DepthExceeded,
        ),
    ensures
        unify_lists(trail, l, m, deeper) == unify_lists(trail, l, m, depth),
    decreases depth, 2 + list_len(l),
{
    match (l, m) {
        (ListView::Cons(h1, t1), ListView::Cons(h2, t2)) => {
            lemma_unify_terms_deeper(trail, *h1, *h2, depth, deeper);
            match unify_terms(trail, *h1, *h2, depth) {
                Ok(next) => {
                    lemma_unify_lists_deeper(next, *t1, *t2, depth, deeper);
                },
                Err(_) => {},
            }
        },
        _ => {},
    }
}

impl Term {
    /// Unifies `self` with `other`. On success the store holds the bindings
    /// that make the two the same; on failure it is as it was.
    pub fn unify(&self, other: &Term, store: &mut Store, depth: usize) -> (r: Result<(), DeriveError>)
        requires
            old(store).wf(),
        ensures
            final(store).wf(),
            match unify_terms(old(store)@.trail, self@, other@, depth as nat) {
                Ok(after) => r is Ok && final(store)@ == (StoreView { trail: after, ..old(store)@ }),
                Err(e) => r == Err::<(), DeriveError>(e) && final(store)@ == old(store)@,
            },
        decreases depth, 1nat,
    {
        proof {
            lemma_walk_unbound(store@.trail, self@);
            lemma_walk_unbound(store@.trail, other@);
        }
        let a: Term = store.walk(self).clone();
        let b: Term = store.walk(other).clone();
        match a {
            Term::Var(v) => {
                let same = match &b {
                    Term::Var(w) => v == *w,
                    _ => false,
                };
                if !same {
                    store.bind(v, b);
                }
                Ok(())
            },
            Term::Pred(p) => match b {
                Term::Var(w) => {
                    store.bind(w, Term::Pred(p));
                    Ok(())
                },
                Term::Pred(q) => p.unify(&q, store, depth),
                Term::List(_) => Err(DeriveError::TypeMismatch),
            },
            Term::List(l) => match b {
                Term::Var(w) => {
                    store.bind(w, Term::List(l));
                    Ok(())
                },
                Term::Pred(_) => Err(DeriveError::TypeMismatch),
                Term::List(m) => {
                    if depth == 0 {
                        Err(DeriveError::DepthExceeded)
                    } else {
                        l.unify(&m, store, depth - 1)
                    }
                },
            },
        }
    }
}

impl Variable {
    /// Gives the variable the value `term`: binds it if it is unbound,
    /// and otherwise unifies what it stands for with `term`.
    pub fn assign(&self, term: &Term, store: &mut Store, depth: usize) -> (r: Result<(), DeriveError>)
        requires
            old(store).wf(),
        ensures
            final(store).wf(),
            match unify_terms(old(store)@.trail, TermView::Var(self@), term@, depth as nat) {
                Ok(after) => r is Ok && final(store)@ == (StoreView { trail: after, ..old(store)@ }),
                Err(e) => r == Err::<(), DeriveError>(e) && final(store)@ == old(store)@,
            },
    {
        Term::Var(self.clone()).unify(term, store, depth)
    }
}

impl Predicate {
    /// Unifies two predicates: their names must be equal and their
    /// arguments must unify.
    pub fn unify(&self, other: &Predicate, store: &mut Store, depth: usize) -> (r: Result<
        (),
        DeriveError,
    >)
        requires
            old(store).wf(),
        ensures
            final(store).wf(),
            match unify_preds(old(store)@.trail, self@, other@, depth as nat) {
                Ok(after) => r is Ok && final(store)@ == (StoreView { trail: after, ..old(store)@ }),
                Err(e) => r == Err::<(), DeriveError>(e) && final(store)@ == old(store)@,
            },
        decreases depth, 0nat,
    {
        if self.name != other.name {
            Err(DeriveError::NameMismatch)
        } else if depth == 0 {
            Err(DeriveError::DepthExceeded)
        } else {
            self.arguments.unify(&other.arguments, store, depth - 1)
        }
    }
}

impl List {
    /// Unifies two lists element by element, left to right; the bindings
    /// made for an element are seen by the elements after it.
    pub fn unify(&self, other: &List, store: &mut Store, depth: usize) -> (r: Result<(), DeriveError>)
        requires
            old(store).wf(),
        ensures
            final(store).wf(),
            match unify_lists(old(store)@.trail, self@, other@, depth as nat) {
                Ok(after) => r is Ok && final(store)@ == (StoreView { trail: after, ..old(store)@ }),
                Err(e) => r == Err::<(), DeriveError>(e) && final(store)@ == old(store)@,
            },
        decreases depth, 2 + list_len(self@),
    {
        match (self, other) {
            (List::Nil, List::Nil) => Ok(()),
            (List::Cons(h1, t1), List::Cons(h2, t2)) => {
                let mark = store.mark();
                match h1.unify(h2, store, depth) {
                    Ok(()) => {
                        proof {
                            lemma_unify_terms_extends(old(store)@.trail, h1@, h2@, depth as nat);
                        }
                        match t1.unify(t2, store, depth) {
                            Ok(()) => Ok(()),
                            Err(e) => {
                                store.rewind(mark);
                                Err(e)
                            },
                        }
                    },
                    Err(e) => Err(e),
                }
            },
            _ => Err(DeriveError::ArityMismatch),
        }
    }
}

} // verus!
