//! Derivation: depth-first proof search over an ordered knowledge base.
//!
//! A goal is proved by the first clause, in the order of the knowledge
//! base, whose renamed head unifies with it and whose renamed body can be
//! derived in turn. The bindings of an attempt that fails are undone
//! before the next clause is tried.

use vstd::prelude::*;
use crate::error::DeriveError;
use crate::rename::{clause_occurrences, lemma_rename_clause_next, rename_clause};
use crate::store::{extends, lemma_extends_transitive, trail_wf, BindingView, Store, StoreView};
use crate::term::{
    list_variables, term_variables, vars_view, Clause, ClauseView, List, ListView, PredView,
    Predicate, Term, TermView, Variable,
};
use crate::unify::{lemma_unify_preds_deeper, lemma_unify_preds_extends, unify_preds};

verus! {

/// How a derivation ended: its verdict, the trail it left, and the next
/// fresh identifier.
pub struct Derived {
    pub result: Result<(), DeriveError>,
    pub trail: Seq<BindingView>,
    pub next: nat,
}

/// The clauses of a knowledge base as values, in their order.
pub open spec fn kb_view(kb: Seq<Clause>) -> Seq<ClauseView> {
    Seq::new(kb.len(), |i: int| kb[i]@)
}

/// The number of nested conjunctions and conjuncts in a goal.
pub open spec fn goal_size(t: TermView) -> nat
    decreases t,
{
    match t {
        TermView::List(l) => 1 + goals_size(l),
        _ => 1,
    }
}

/// The number of nested conjunctions and conjuncts in a list of goals.
pub open spec fn goals_size(l: ListView) -> nat
    decreases l,
{
    match l {
        ListView::Nil => 0,
        ListView::Cons(head, tail) => 1 + goal_size(*head) + goals_size(*tail),
    }
}

/// Derives a goal: a variable holds as it is; a predicate is proved from
/// the clauses; a list is the conjunction of its elements.
pub open spec fn derive_term(
    kb: Seq<ClauseView>,
    trail: Seq<BindingView>,
    next: nat,
    t: TermView,
    depth: nat,
) -> Derived
    decreases depth, 1 + goal_size(t), 0nat,
{
    match t {
        TermView::Var(_) => Derived { result: Ok(()), trail, next },
        TermView::Pred(p) => derive_pred(kb, trail, next, p, depth),
        TermView::List(l) => derive_list(kb, trail, next, l, depth),
    }
}

/// Derives the elements in order, each under the bindings that the
/// elements before it have left. If one fails, the bindings of those
/// before it are undone.
pub open spec fn derive_list(
    kb: Seq<ClauseView>,
    trail: Seq<BindingView>,
    next: nat,
    l: ListView,
    depth: nat,
) -> Derived
    decreases depth, 1 + goals_size(l), 0nat,
{
    match l {
        ListView::Nil => Derived { result: Ok(()), trail, next },
        ListView::Cons(head, tail) => {
            let first = derive_term(kb, trail, next, *head, depth);
            match first.result {
                Ok(()) => {
                    let rest = derive_list(kb, first.trail, first.next, *tail, depth);
                    match rest.result {
                        Ok(()) => rest,
                        Err(e) => Derived { result: Err(e), trail, next: rest.next },
                    }
                },
                Err(e) => first,
            }
        },
    }
}

/// Proves a predicate from the clauses, the first clause first.
pub open spec fn derive_pred(
    kb: Seq<ClauseView>,
    trail: Seq<BindingView>,
    next: nat,
    p: PredView,
    depth: nat,
) -> Derived
    decreases depth, 0nat, kb.len() + 1,
{
    try_clauses(kb, trail, next, p, depth, 0)
}

/// Tries the clauses from the `i`-th on. A clause is renamed with an empty
/// dictionary, so as a whole; its head is unified with the goal, and its
/// body derived one level deeper. The first clause for which both succeed
/// decides. A clause for which one of them fails is given up, its bindings
/// undone, unless what failed was a limit, which ends the search.
pub open spec fn try_clauses(
    kb: Seq<ClauseView>,
    trail: Seq<BindingView>,
    next: nat,
    p: PredView,
    depth: nat,
    i: nat,
) -> Derived
    decreases depth, 0nat, kb.len() - i,
{
    if i >= kb.len() {
        Derived { result: Err(DeriveError::NoMatchingClause), trail, next }
    } else if next + clause_occurrences(kb[i as int]) > usize::MAX {
        Derived { result: Err(DeriveError::IdsExhausted), trail, next }
    } else {
        let fact = rename_clause(kb[i as int], Map::empty(), next);
        match unify_preds(trail, p, fact.value.head, depth) {
            Ok(unified) => if depth == 0 {
                Derived { result: Err(DeriveError::DepthExceeded), trail, next: fact.next }
            } else {
                let body = derive_list(kb, unified, fact.next, fact.value.body, (depth - 1) as nat);
                match body.result {
                    Ok(()) => body,
                    Err(e) => if e.is_limit() {
                        Derived { result: Err(e), trail, next: body.next }
                    } else {
                        try_clauses(kb, trail, body.next, p, depth, i + 1)
                    },
                }
            },
            Err(e) => if e.is_limit() {
                Derived { result: Err(e), trail, next: fact.next }
            } else {
                try_clauses(kb, trail, fact.next, p, depth, i + 1)
            },
        }
    }
}

/// The search keeps the trail well formed and only adds bindings; where
/// it fails it leaves the trail as it found it; and it never gives an
/// identifier back.
pub proof fn lemma_derive_term_trail(
    kb: Seq<ClauseView>,
    trail: Seq<BindingView>,
    next: nat,
    t: TermView,
    depth: nat,
)
    requires
        trail_wf(trail),
    ensures
        trail_wf(derive_term(kb, trail, next, t, depth).trail),
        extends(derive_term(kb, trail, next, t, depth).trail, trail),
        derive_term(kb, trail, next, t, depth).result is Err ==> derive_term(
            kb,
            trail,
            next,
            t,
            depth,
        ).trail == trail,
        next <= derive_term(kb, trail, next, t, depth).next,
    decreases depth, 1 + goal_size(t), 0nat,
{
    assert(trail.take(trail.len() as int) == trail);
    match t {
        TermView::Var(_) => {},
        TermView::Pred(p) => {
            lemma_try_clauses_trail(kb, trail, next, p, depth, 0);
        },
        TermView::List(l) => {
            lemma_derive_list_trail(kb, trail, next, l, depth);
        },
    }
}

/// For conjunctions: the search keeps the trail well formed and only adds
/// bindings; where it fails it leaves the trail as it found it.
pub proof fn lemma_derive_list_trail(
    kb: Seq<ClauseView>,
    trail: Seq<BindingView>,
    next: nat,
    l: ListView,
    depth: nat,
)
    requires
        trail_wf(trail),
    ensures
        trail_wf(derive_list(kb, trail, next, l, depth).trail),
        extends(derive_list(kb, trail, next, l, depth).trail, trail),
        derive_list(kb, trail, next, l, depth).result is Err ==> derive_list(
            kb,
            trail,
            next,
            l,
            depth,
        ).trail == trail,
        next <= derive_list(kb, trail, next, l, depth).next,
    decreases depth, 1 + goals_size(l), 0nat,
{
    assert(trail.take(trail.len() as int) == trail);
    match l {
        ListView::Nil => {},
        ListView::Cons(head, tail) => {
            let first = derive_term(kb, trail, next, *head, depth);
            lemma_derive_term_trail(kb, trail, next, *head, depth);
            if first.result is Ok {
                let rest = derive_list(kb, first.trail, first.next, *tail, depth);
                lemma_derive_list_trail(kb, first.trail, first.next, *tail, depth);
                lemma_extends_transitive(rest.trail, first.trail, trail);
            }
        },
    }
}

/// For the clauses from the `i`-th on: the search keeps the trail well
/// formed and only adds bindings; where it fails it leaves the trail as it
/// found it.
pub proof fn lemma_try_clauses_trail(
    kb: Seq<ClauseView>,
    trail: Seq<BindingView>,
    next: nat,
    p: PredView,
    depth: nat,
    i: nat,
)
    requires
        trail_wf(trail),
    ensures
        trail_wf(try_clauses(kb, trail, next, p, depth, i).trail),
        extends(try_clauses(kb, trail, next, p, depth, i).trail, trail),
        try_clauses(kb, trail, next, p, depth, i).result is Err ==> try_clauses(
            kb,
            trail,
            next,
            p,
            depth,
            i,
        ).trail == trail,
        next <= try_clauses(kb, trail, next, p, depth, i).next,
    decreases depth, 0nat, kb.len() - i,
{
    assert(trail.take(trail.len() as int) == trail);
    if i < kb.len() && next + clause_occurrences(kb[i as int]) <= usize::MAX {
        let fact = rename_clause(kb[i as int], Map::empty(), next);
        lemma_rename_clause_next(kb[i as int], Map::empty(), next);
        lemma_unify_preds_extends(trail, p, fact.value.head, depth);
        match unify_preds(trail, p, fact.value.head, depth) {
            Ok(unified) => {
                if depth > 0 {
                    let body = derive_list(kb, unified, fact.next, fact.value.body, (depth - 1) as nat);
                    lemma_derive_list_trail(kb, unified, fact.next, fact.value.body, (depth - 1) as nat);
                    match body.result {
                        Ok(()) => {
                            lemma_extends_transitive(body.trail, unified, trail);
                        },
                        Err(e) => {
                            if !e.is_limit() {
                                lemma_try_clauses_trail(kb, trail, body.next, p, depth, i + 1);
                            }
                        },
                    }
                }
            },
            Err(e) => {
                if !e.is_limit() {
                    lemma_try_clauses_trail(kb, trail, fact.next, p, depth, i + 1);
                }
            },
        }
    }
}

/// A verdict that is not `DepthExceeded` does not depend on the depth: at
/// every greater depth the search ends in the same way, with the same
/// bindings.
pub proof fn lemma_derive_term_deeper(
    kb: Seq<ClauseView>,
    trail: Seq<BindingView>,
    next: nat,
    t: TermView,
    depth: nat,
    deeper: nat,
)
    requires
        depth <= deeper,
        derive_term(kb, trail, next, t, depth).result != Err::<(), DeriveError>(
            DeriveError::DepthExceeded,
        ),
    ensures
        derive_term(kb, trail, next, t, deeper) == derive_term(kb, trail, next, t, depth),
    decreases depth, 1 + goal_size(t), 0nat,
{
    match t {
        TermView::Var(_) => {},
        TermView::Pred(p) => {
            lemma_try_clauses_deeper(kb, trail, next, p, depth, deeper, 0);
        },
        TermView::List(l) => {
            lemma_derive_list_deeper(kb, trail, next, l, depth, deeper);
        },
    }
}

/// For conjunctions: a verdict that is not `DepthExceeded` does not depend
/// on the depth.
pub proof fn lemma_derive_list_deeper(
    kb: Seq<ClauseView>,
    trail: Seq<BindingView>,
    next: nat,
    l: ListView,
    depth: nat,
    deeper: nat,
)
    requires
        depth <= deeper,
        derive_list(kb, trail, next, l, depth).result != Err::<(), DeriveError>(
            DeriveError::DepthExceeded,
        ),
    ensures
        derive_list(kb, trail, next, l, deeper) == derive_list(kb, trail, next, l, depth),
    decreases depth, 1 + goals_size(l), 0nat,
{
    match l {
        ListView::Nil => {},
        ListView::Cons(head, tail) => {
            let first = derive_term(kb, trail, next, *head, depth);
            lemma_derive_term_deeper(kb, trail, next, *head, depth, deeper);
            if first.result is Ok {
                lemma_derive_list_deeper(kb, first.trail, first.next, *tail, depth, deeper);
            }
        },
    }
}

/// For the clauses from the `i`-th on: a verdict that is not
/// `DepthExceeded` does not depend on the depth.
pub proof fn lemma_try_clauses_deeper(
    kb: Seq<ClauseView>,
    trail: Seq<BindingView>,
    next: nat,
    p: PredView,
    depth: nat,
    deeper: nat,
    i: nat,
)
    requires
        depth <= deeper,
        try_clauses(kb, trail, next, p, depth, i).result != Err::<(), DeriveError>(
            DeriveError::DepthExceeded,
        ),
    ensures
        try_clauses(kb, trail, next, p, deeper, i) == try_clauses(kb, trail, next, p, depth, i),
    decreases depth, 0nat, kb.len() - i,
{
    if i < kb.len() && next + clause_occurrences(kb[i as int]) <= usize::MAX {
        let fact = rename_clause(kb[i as int], Map::empty(), next);
        lemma_unify_preds_deeper(trail, p, fact.value.head, depth, deeper);
        match unify_preds(trail, p, fact.value.head, depth) {
            Ok(unified) => {
                let body = derive_list(kb, unified, fact.next, fact.value.body, (depth - 1) as nat);
                lemma_derive_list_deeper(
                    kb,
                    unified,
                    fact.next,
                    fact.value.body,
                    (depth - 1) as nat,
                    (deeper - 1) as nat,
                );
                match body.result {
                    Ok(()) => {},
                    Err(e) => {
                        if !e.is_limit() {
                            lemma_try_clauses_deeper(kb, trail, body.next, p, depth, deeper, i + 1);
                        }
                    },
                }
            },
            Err(e) => {
                if !e.is_limit() {
                    lemma_try_clauses_deeper(kb, trail, fact.next, p, depth, deeper, i + 1);
                }
            },
        }
    }
}

impl Predicate {
    /// Proves the goal from `knowledge`, trying its clauses in order. On
    /// success the store holds the bindings of the proof and the result is
    /// the goal's variables; on failure the bindings are as they were.
    pub fn derive(&self, knowledge: &[Clause], store: &mut Store, depth: usize) -> (r: Result<
        Vec<Variable>,
        DeriveError,
    >)
        requires
            old(store).wf(),
        ensures
            final(store).wf(),
            extends(final(store)@.trail, old(store)@.trail),
            r is Err ==> final(store)@.trail == old(store)@.trail,
            ({
                let d = derive_pred(
                    kb_view(knowledge@),
                    old(store)@.trail,
                    old(store)@.next,
                    self@,
                    depth as nat,
                );
                &&& final(store)@ == (StoreView { trail: d.trail, next: d.next, ..old(store)@ })
                &&& match d.result {
                    Ok(()) => r matches Ok(vs) && vars_view(vs@) == list_variables(self@.args),
                    Err(e) => r matches Err(f) && f == e,
                }
            }),
        decreases depth, 0nat, knowledge@.len() + 1,
    {
        let ghost kb = kb_view(knowledge@);
        let ghost before = store@;
        let mark = store.mark();
        let mut i: usize = 0;
        assert(before.trail.take(before.trail.len() as int) == before.trail);
        while i < knowledge.len()
            invariant
                i <= knowledge.len(),
                kb == kb_view(knowledge@),
                before == old(store)@,
                before.trail.take(before.trail.len() as int) == before.trail,
                store.wf(),
                mark == before.trail.len(),
                store@ == (StoreView { next: store@.next, ..before }),
                derive_pred(kb, before.trail, before.next, self@, depth as nat) == try_clauses(
                    kb,
                    before.trail,
                    store@.next,
                    self@,
                    depth as nat,
                    i as nat,
                ),
            decreases knowledge.len() - i,
        {
            let clause = &knowledge[i];
            assert(kb[i as int] == clause@);
            let fact = match clause.renamed_apart(store) {
                Some(fact) => fact,
                None => {
                    return Err(DeriveError::IdsExhausted);
                },
            };
            match self.unify(&fact.result, store, depth) {
                Ok(()) => {
                    proof {
                        lemma_unify_preds_extends(before.trail, self@, fact.result@, depth as nat);
                    }
                    match fact.conditions.derive(knowledge, store, depth - 1) {
                        Ok(_) => {
                            proof {
                                lemma_extends_transitive(
                                    store@.trail,
                                    unify_preds(before.trail, self@, fact.result@, depth as nat)->Ok_0,
                                    before.trail,
                                );
                            }
                            return Ok(self.variables());
                        },
                        Err(e) => {
                            store.rewind(mark);
                            if e.limit() {
                                return Err(e);
                            }
                        },
                    }
                },
                Err(e) => {
                    if e.limit() {
                        return Err(e);
                    }
                },
            }
            i += 1;
        }
        Err(DeriveError::NoMatchingClause)
    }
}

impl Term {
    /// Derives a goal: a variable holds as it is, a predicate is proved
    /// from the clauses, a list is the conjunction of its elements.
    pub fn derive(&self, knowledge: &[Clause], store: &mut Store, depth: usize) -> (r: Result<
        Vec<Variable>,
        DeriveError,
    >)
        requires
            old(store).wf(),
        ensures
            final(store).wf(),
            extends(final(store)@.trail, old(store)@.trail),
            r is Err ==> final(store)@.trail == old(store)@.trail,
            ({
                let d = derive_term(
                    kb_view(knowledge@),
                    old(store)@.trail,
                    old(store)@.next,
                    self@,
                    depth as nat,
                );
                &&& final(store)@ == (StoreView { trail: d.trail, next: d.next, ..old(store)@ })
                &&& match d.result {
                    Ok(()) => r matches Ok(vs) && vars_view(vs@) == term_variables(self@),
                    Err(e) => r matches Err(f) && f == e,
                }
            }),
        decreases depth, 1 + goal_size(self@), 0nat,
    {
        match self {
            Term::Var(_) => {
                assert(store@.trail.take(store@.trail.len() as int) == store@.trail);
                Ok(self.variables())
            },
            Term::Pred(p) => p.derive(knowledge, store, depth),
            Term::List(l) => l.derive(knowledge, store, depth),
        }
    }
}

impl List {
    /// Derives the conjunction of the elements, left to right.
    pub fn derive(&self, knowledge: &[Clause], store: &mut Store, depth: usize) -> (r: Result<
        Vec<Variable>,
        DeriveError,
    >)
        requires
            old(store).wf(),
        ensures
            final(store).wf(),
            extends(final(store)@.trail, old(store)@.trail),
            r is Err ==> final(store)@.trail == old(store)@.trail,
            ({
                let d = derive_list(
                    kb_view(knowledge@),
                    old(store)@.trail,
                    old(store)@.next,
                    self@,
                    depth as nat,
                );
                &&& final(store)@ == (StoreView { trail: d.trail, next: d.next, ..old(store)@ })
                &&& match d.result {
                    Ok(()) => r matches Ok(vs) && vars_view(vs@) == list_variables(self@),
                    Err(e) => r matches Err(f) && f == e,
                }
            }),
        decreases depth, 1 + goals_size(self@), 0nat,
    {
        assert(store@.trail.take(store@.trail.len() as int) == store@.trail);
        match self {
            List::Nil => Ok(self.variables()),
            List::Cons(head, tail) => {
                let mark = store.mark();
                match head.derive(knowledge, store, depth) {
                    Ok(_) => {
                        let ghost middle = store@.trail;
                        match tail.derive(knowledge, store, depth) {
                            Ok(_) => {
                                proof {
                                    lemma_extends_transitive(
                                        store@.trail,
                                        middle,
                                        old(store)@.trail,
                                    );
                                }
                                Ok(self.variables())
                            },
                            Err(e) => {
                                store.rewind(mark);
                                Err(e)
                            },
                        }
                    },
                    Err(e) => Err(e),
                }
            },
        }
    }
}

} // verus!
