//! Reading a term through the bindings, all the way down.

use vstd::prelude::*;
use crate::store::{trail_wf, walk, BindingView, Store};
use crate::term::{list_len, List, ListView, PredView, Predicate, Term, TermView};
use crate::unify::{agree, agree_lists, lemma_unify_terms_agree, unify_terms};

verus! {

/// The term that `t` stands for under `trail`: every bound variable in it
/// replaced by what it walks to, as far down as the term goes. There is
/// none where the term nests deeper than `depth`, as it does for every
/// depth when a variable is bound to a term that holds it.
pub open spec fn resolve_term(trail: Seq<BindingView>, t: TermView, depth: nat) -> Option<TermView>
    decreases depth, 0nat,
{
    match walk(trail, t) {
        TermView::Var(v) => Some(TermView::Var(v)),
        TermView::Pred(p) => if depth == 0 {
            None
        } else {
            match resolve_list(trail, p.args, (depth - 1) as nat) {
                Some(args) => Some(TermView::Pred(PredView { name: p.name, args })),
                None => None,
            }
        },
        TermView::List(l) => if depth == 0 {
            None
        } else {
            match resolve_list(trail, l, (depth - 1) as nat) {
                Some(elements) => Some(TermView::List(elements)),
                None => None,
            }
        },
    }
}

/// The list of what the elements stand for, if none nests deeper than
/// `depth`.
pub open spec fn resolve_list(trail: Seq<BindingView>, l: ListView, depth: nat) -> Option<ListView>
    decreases depth, 1 + list_len(l),
{
    match l {
        ListView::Nil => Some(ListView::Nil),
        ListView::Cons(head, tail) => match (
            resolve_term(trail, *head, depth),
            resolve_list(trail, *tail, depth),
        ) {
            (Some(h), Some(t)) => Some(ListView::Cons(Box::new(h), Box::new(t))),
            _ => None,
        },
    }
}

/// Terms that agree one level further down than `depth` resolve alike.
pub proof fn lemma_agree_resolve(trail: Seq<BindingView>, a: TermView, b: TermView, depth: nat)
    requires
        agree(trail, a, b, depth + 1),
    ensures
        resolve_term(trail, a, depth) == resolve_term(trail, b, depth),
    decreases depth, 0nat,
{
    match (walk(trail, a), walk(trail, b)) {
        (TermView::Pred(p), TermView::Pred(q)) => {
            if depth > 0 {
                lemma_agree_lists_resolve(trail, p.args, q.args, (depth - 1) as nat);
            }
        },
        (TermView::List(l), TermView::List(m)) => {
            if depth > 0 {
                lemma_agree_lists_resolve(trail, l, m, (depth - 1) as nat);
            }
        },
        _ => {},
    }
}

/// Lists that agree one level further down than `depth` resolve alike.
pub proof fn lemma_agree_lists_resolve(trail: Seq<BindingView>, l: ListView, m: ListView, depth: nat)
    requires
        agree_lists(trail, l, m, depth + 1),
    ensures
        resolve_list(trail, l, depth) == resolve_list(trail, m, depth),
    decreases depth, 1 + list_len(l),
{
    match (l, m) {
        (ListView::Cons(h1, t1), ListView::Cons(h2, t2)) => {
            lemma_agree_resolve(trail, *h1, *h2, depth);
            lemma_agree_lists_resolve(trail, *t1, *t2, depth);
        },
        _ => {},
    }
}

/// After a successful unification the two terms stand for the same term:
/// to whatever depth they are resolved, the results are equal.
pub proof fn lemma_unify_resolves_alike(
    trail: Seq<BindingView>,
    a: TermView,
    b: TermView,
    depth: nat,
    n: nat,
)
    requires
        trail_wf(trail),
        unify_terms(trail, a, b, depth) is Ok,
    ensures
        resolve_term(unify_terms(trail, a, b, depth)->Ok_0, a, n) == resolve_term(
            unify_terms(trail, a, b, depth)->Ok_0,
            b,
            n,
        ),
{
    lemma_unify_terms_agree(trail, a, b, depth, n + 1);
    lemma_agree_resolve(unify_terms(trail, a, b, depth)->Ok_0, a, b, n);
}

/// A term that resolves within a depth resolves to the same term within
/// every greater depth.
pub proof fn lemma_resolve_deeper(trail: Seq<BindingView>, t: TermView, depth: nat, deeper: nat)
    requires
        depth <= deeper,
        resolve_term(trail, t, depth) is Some,
    ensures
        resolve_term(trail, t, deeper) == resolve_term(trail, t, depth),
    decreases depth, 0nat,
{
    match walk(trail, t) {
        TermView::Var(_) => {},
        TermView::Pred(p) => {
            lemma_resolve_list_deeper(trail, p.args, (depth - 1) as nat, (deeper - 1) as nat);
        },
        TermView::List(l) => {
            lemma_resolve_list_deeper(trail, l, (depth - 1) as nat, (deeper - 1) as nat);
        },
    }
}

/// A list that resolves within a depth resolves to the same list within
/// every greater depth.
pub proof fn lemma_resolve_list_deeper(trail: Seq<BindingView>, l: ListView, depth: nat, deeper: nat)
    requires
        depth <= deeper,
        resolve_list(trail, l, depth) is Some,
    ensures
        resolve_list(trail, l, deeper) == resolve_list(trail, l, depth),
    decreases depth, 1 + list_len(l),
{
    match l {
        ListView::Nil => {},
        ListView::Cons(head, tail) => {
            lemma_resolve_deeper(trail, *head, depth, deeper);
            lemma_resolve_list_deeper(trail, *tail, depth, deeper);
        },
    }
}

impl Term {
    /// The term that `self` stands for under the bindings of `store`, if it
    /// nests no deeper than `depth`.
    pub fn resolve(&self, store: &Store, depth: usize) -> (r: Option<Term>)
        ensures
            match resolve_term(store@.trail, self@, depth as nat) {
                Some(t) => r matches Some(u) && u@ == t,
                None => r is None,
            },
        decreases depth, 0nat,
    {
        match store.walk(self) {
            Term::Var(v) => Some(Term::Var(v.clone())),
            Term::Pred(p) => {
                if depth == 0 {
                    None
                } else {
                    match p.arguments.resolve(store, depth - 1) {
                        Some(arguments) => Some(
                            Term::Pred(Predicate { name: p.name.clone(), arguments }),
                        ),
                        None => None,
                    }
                }
            },
            Term::List(l) => {
                if depth == 0 {
                    None
                } else {
                    match l.resolve(store, depth - 1) {
                        Some(elements) => Some(Term::List(elements)),
                        None => None,
                    }
                }
            },
        }
    }
}

impl List {
    /// The list of what the elements stand for under the bindings of
    /// `store`, if none nests deeper than `depth`.
    pub fn resolve(&self, store: &Store, depth: usize) -> (r: Option<List>)
        ensures
            match resolve_list(store@.trail, self@, depth as nat) {
                Some(l) => r matches Some(m) && m@ == l,
                None => r is None,
            },
        decreases depth, 1 + list_len(self@),
    {
        match self {
            List::Nil => Some(List::Nil),
            List::Cons(head, tail) => {
                match head.resolve(store, depth) {
                    Some(h) => match tail.resolve(store, depth) {
                        Some(t) => Some(List::Cons(Box::new(h), Box::new(t))),
                        None => None,
                    },
                    None => None,
                }
            },
        }
    }
}

} // verus!
