//! Renaming apart: a copy of a term or clause in which every variable is
//! replaced by a fresh one, the same fresh one for every occurrence of the
//! same variable.

use vstd::prelude::*;
use crate::store::{Store, StoreView};
use crate::term::{
    occurs_in_clause, occurs_in_list, occurs_in_term, Atom, Clause, ClauseView, List, ListView,
    PredView, Predicate, Term, TermView, VarView, Variable,
};

verus! {

/// The outcome of a renaming: the renamed value, the dictionary with the
/// variables met on the way added, and the next fresh identifier.
pub struct Renamed<T> {
    pub value: T,
    pub dict: Map<VarView, VarView>,
    pub next: nat,
}

/// A variable that the dictionary knows is replaced by its entry; any other
/// gets a fresh variable of the same name, which the dictionary then holds.
pub open spec fn rename_var(v: VarView, dict: Map<VarView, VarView>, next: nat) -> Renamed<VarView> {
    if dict.contains_key(v) {
        Renamed { value: dict[v], dict, next }
    } else {
        let fresh = VarView { name: v.name, id: next };
        Renamed { value: fresh, dict: dict.insert(v, fresh), next: next + 1 }
    }
}

/// Renames the variables of a term.
pub open spec fn rename_term(t: TermView, dict: Map<VarView, VarView>, next: nat) -> Renamed<TermView>
    decreases t,
{
    match t {
        TermView::Var(v) => {
            let r = rename_var(v, dict, next);
            Renamed { value: TermView::Var(r.value), dict: r.dict, next: r.next }
        },
        TermView::Pred(p) => {
            let r = rename_pred(p, dict, next);
            Renamed { value: TermView::Pred(r.value), dict: r.dict, next: r.next }
        },
        TermView::List(l) => {
            let r = rename_list(l, dict, next);
            Renamed { value: TermView::List(r.value), dict: r.dict, next: r.next }
        },
    }
}

/// Renames the variables in the arguments of a predicate.
pub open spec fn rename_pred(p: PredView, dict: Map<VarView, VarView>, next: nat) -> Renamed<PredView>
    decreases p,
{
    let r = rename_list(p.args, dict, next);
    Renamed { value: PredView { name: p.name, args: r.value }, dict: r.dict, next: r.next }
}

/// Renames the elements from left to right, each with the dictionary that
/// the elements before it have left.
pub open spec fn rename_list(l: ListView, dict: Map<VarView, VarView>, next: nat) -> Renamed<ListView>
    decreases l,
{
    match l {
        ListView::Nil => Renamed { value: ListView::Nil, dict, next },
        ListView::Cons(head, tail) => {
            let h = rename_term(*head, dict, next);
            let t = rename_list(*tail, h.dict, h.next);
            Renamed {
                value: ListView::Cons(Box::new(h.value), Box::new(t.value)),
                dict: t.dict,
                next: t.next,
            }
        },
    }
}

/// Renames the head, then the body, so that head and body share variables
/// after the renaming as they did before.
pub open spec fn rename_clause(c: ClauseView, dict: Map<VarView, VarView>, next: nat) -> Renamed<
    ClauseView,
> {
    let h = rename_pred(c.head, dict, next);
    let b = rename_list(c.body, h.dict, h.next);
    Renamed { value: ClauseView { head: h.value, body: b.value }, dict: b.dict, next: b.next }
}

/// The number of variable occurrences in a term.
pub open spec fn term_occurrences(t: TermView) -> nat
    decreases t,
{
    match t {
        TermView::Var(_) => 1,
        TermView::Pred(p) => list_occurrences(p.args),
        TermView::List(l) => list_occurrences(l),
    }
}

/// The number of variable occurrences in the elements of a list.
pub open spec fn list_occurrences(l: ListView) -> nat
    decreases l,
{
    match l {
        ListView::Nil => 0,
        ListView::Cons(head, tail) => term_occurrences(*head) + list_occurrences(*tail),
    }
}

/// The number of variable occurrences in the head and the body of a clause.
pub open spec fn clause_occurrences(c: ClauseView) -> nat {
    list_occurrences(c.head.args) + list_occurrences(c.body)
}

/// A renaming takes at most one fresh identifier for each occurrence of a
/// variable, and never gives one back.
pub proof fn lemma_rename_term_next(t: TermView, dict: Map<VarView, VarView>, next: nat)
    ensures
        next <= rename_term(t, dict, next).next <= next + term_occurrences(t),
    decreases t,
{
    match t {
        TermView::Var(_) => {},
        TermView::Pred(p) => {
            lemma_rename_list_next(p.args, dict, next);
        },
        TermView::List(l) => {
            lemma_rename_list_next(l, dict, next);
        },
    }
}

/// For lists: a renaming takes at most one fresh identifier for each
/// occurrence of a variable, and never gives one back.
pub proof fn lemma_rename_list_next(l: ListView, dict: Map<VarView, VarView>, next: nat)
    ensures
        next <= rename_list(l, dict, next).next <= next + list_occurrences(l),
    decreases l,
{
    match l {
        ListView::Nil => {},
        ListView::Cons(head, tail) => {
            let h = rename_term(*head, dict, next);
            lemma_rename_term_next(*head, dict, next);
            lemma_rename_list_next(*tail, h.dict, h.next);
        },
    }
}

/// For clauses: a renaming takes at most one fresh identifier for each
/// occurrence of a variable, and never gives one back.
pub proof fn lemma_rename_clause_next(c: ClauseView, dict: Map<VarView, VarView>, next: nat)
    ensures
        next <= rename_clause(c, dict, next).next <= next + clause_occurrences(c),
{
    let h = rename_pred(c.head, dict, next);
    lemma_rename_list_next(c.head.args, dict, next);
    lemma_rename_list_next(c.body, h.dict, h.next);
}

/// The term in which every variable that `m` knows is replaced by its entry.
pub open spec fn substitute_term(t: TermView, m: Map<VarView, VarView>) -> TermView
    decreases t,
{
    match t {
        TermView::Var(v) => if m.contains_key(v) {
            TermView::Var(m[v])
        } else {
            t
        },
        TermView::Pred(p) => TermView::Pred(
            PredView { name: p.name, args: substitute_list(p.args, m) },
        ),
        TermView::List(l) => TermView::List(substitute_list(l, m)),
    }
}

/// The list in which every variable that `m` knows is replaced by its entry.
pub open spec fn substitute_list(l: ListView, m: Map<VarView, VarView>) -> ListView
    decreases l,
{
    match l {
        ListView::Nil => ListView::Nil,
        ListView::Cons(head, tail) => ListView::Cons(
            Box::new(substitute_term(*head, m)),
            Box::new(substitute_list(*tail, m)),
        ),
    }
}

/// The clause in which every variable that `m` knows is replaced by its
/// entry.
pub open spec fn substitute_clause(c: ClauseView, m: Map<VarView, VarView>) -> ClauseView {
    ClauseView {
        head: PredView { name: c.head.name, args: substitute_list(c.head.args, m) },
        body: substitute_list(c.body, m),
    }
}

/// `after` keeps the entries of `before`; each entry that it adds gives a
/// variable a fresh one of the same name with an identifier from `next` up
/// to, not including, `after_next`; and no two added entries give the same
/// identifier.
pub open spec fn fresh_extension(
    before: Map<VarView, VarView>,
    after: Map<VarView, VarView>,
    next: nat,
    after_next: nat,
) -> bool {
    &&& next <= after_next
    &&& forall|v: VarView| #[trigger]
        before.contains_key(v) ==> after.contains_key(v) && after[v] == before[v]
    &&& forall|v: VarView|
        after.contains_key(v) && !before.contains_key(v) ==> (#[trigger] after[v]).name == v.name
            && next <= after[v].id < after_next
    &&& forall|v: VarView, w: VarView|
        after.contains_key(v) && !before.contains_key(v) && after.contains_key(w)
            && !before.contains_key(w) && v != w ==> (#[trigger] after[v]).id != (
        #[trigger] after[w]).id
}

/// Two renamings in a row add fresh variables as one does.
proof fn lemma_fresh_extension_chain(
    a: Map<VarView, VarView>,
    b: Map<VarView, VarView>,
    c: Map<VarView, VarView>,
    n0: nat,
    n1: nat,
    n2: nat,
)
    requires
        fresh_extension(a, b, n0, n1),
        fresh_extension(b, c, n1, n2),
    ensures
        fresh_extension(a, c, n0, n2),
{
    assert forall|v: VarView| #[trigger] a.contains_key(v) implies c.contains_key(v) && c[v]
        == a[v] by {
        assert(b.contains_key(v));
    }
    assert forall|v: VarView| c.contains_key(v) && !a.contains_key(v) implies (#[trigger] c[v]).name
        == v.name && n0 <= c[v].id < n2 by {
        if b.contains_key(v) {
            assert(b[v].name == v.name);
        }
    }
    assert forall|v: VarView, w: VarView|
        c.contains_key(v) && !a.contains_key(v) && c.contains_key(w) && !a.contains_key(w) && v
            != w implies (#[trigger] c[v]).id != (#[trigger] c[w]).id by {
        if b.contains_key(v) {
            assert(b[v].id < n1);
        }
        if b.contains_key(w) {
            assert(b[w].id < n1);
        }
    }
}

/// Whether `m` has an entry for every variable of `t`.
pub open spec fn covers_term(m: Map<VarView, VarView>, t: TermView) -> bool {
    forall|v: VarView| occurs_in_term(v, t) ==> #[trigger] m.contains_key(v)
}

/// Whether `m` has an entry for every variable of `l`.
pub open spec fn covers_list(m: Map<VarView, VarView>, l: ListView) -> bool {
    forall|v: VarView| occurs_in_list(v, l) ==> #[trigger] m.contains_key(v)
}

/// Whether `m` has an entry for every variable of `c`.
pub open spec fn covers_clause(m: Map<VarView, VarView>, c: ClauseView) -> bool {
    forall|v: VarView| occurs_in_clause(v, c) ==> #[trigger] m.contains_key(v)
}

/// Entries added to a dictionary that covers a term do not change what
/// the term becomes.
proof fn lemma_substitute_term_stable(t: TermView, m: Map<VarView, VarView>, larger: Map<VarView, VarView>)
    requires
        covers_term(m, t),
        forall|v: VarView| #[trigger]
            m.contains_key(v) ==> larger.contains_key(v) && larger[v] == m[v],
    ensures
        substitute_term(t, larger) == substitute_term(t, m),
    decreases t,
{
    match t {
        TermView::Var(v) => {
            assert(occurs_in_term(v, t));
            assert(m.contains_key(v));
        },
        TermView::Pred(p) => {
            assert forall|v: VarView| occurs_in_list(v, p.args) implies #[trigger] m.contains_key(
                v,
            ) by {
                assert(occurs_in_term(v, t));
            }
            lemma_substitute_list_stable(p.args, m, larger);
        },
        TermView::List(l) => {
            assert forall|v: VarView| occurs_in_list(v, l) implies #[trigger] m.contains_key(v) by {
                assert(occurs_in_term(v, t));
            }
            lemma_substitute_list_stable(l, m, larger);
        },
    }
}

/// Entries added to a dictionary that covers a list do not change what
/// the list becomes.
proof fn lemma_substitute_list_stable(l: ListView, m: Map<VarView, VarView>, larger: Map<VarView, VarView>)
    requires
        covers_list(m, l),
        forall|v: VarView| #[trigger]
            m.contains_key(v) ==> larger.contains_key(v) && larger[v] == m[v],
    ensures
        substitute_list(l, larger) == substitute_list(l, m),
    decreases l,
{
    match l {
        ListView::Nil => {},
        ListView::Cons(head, tail) => {
            assert forall|v: VarView| occurs_in_term(v, *head) implies #[trigger] m.contains_key(
                v,
            ) by {
                assert(occurs_in_list(v, l));
            }
            assert forall|v: VarView| occurs_in_list(v, *tail) implies #[trigger] m.contains_key(
                v,
            ) by {
                assert(occurs_in_list(v, l));
            }
            lemma_substitute_term_stable(*head, m, larger);
            lemma_substitute_list_stable(*tail, m, larger);
        },
    }
}

/// Renaming keeps the sharing of variables: the renamed term is the source
/// with every variable replaced by its entry in the dictionary that the
/// renaming leaves, so all occurrences of one variable become the same
/// variable; and what the dictionary gained are fresh variables, a
/// different one for each variable of the source that it did not know.
pub proof fn lemma_rename_term_shares(t: TermView, dict: Map<VarView, VarView>, next: nat)
    ensures
        fresh_extension(dict, rename_term(t, dict, next).dict, next, rename_term(t, dict, next).next),
        covers_term(rename_term(t, dict, next).dict, t),
        rename_term(t, dict, next).value == substitute_term(t, rename_term(t, dict, next).dict),
    decreases t,
{
    match t {
        TermView::Var(v) => {},
        TermView::Pred(p) => {
            lemma_rename_list_shares(p.args, dict, next);
        },
        TermView::List(l) => {
            lemma_rename_list_shares(l, dict, next);
        },
    }
}

/// Renaming keeps the sharing of variables among the elements of a list.
pub proof fn lemma_rename_list_shares(l: ListView, dict: Map<VarView, VarView>, next: nat)
    ensures
        fresh_extension(dict, rename_list(l, dict, next).dict, next, rename_list(l, dict, next).next),
        covers_list(rename_list(l, dict, next).dict, l),
        rename_list(l, dict, next).value == substitute_list(l, rename_list(l, dict, next).dict),
    decreases l,
{
    match l {
        ListView::Nil => {},
        ListView::Cons(head, tail) => {
            let h = rename_term(*head, dict, next);
            let t = rename_list(*tail, h.dict, h.next);
            lemma_rename_term_shares(*head, dict, next);
            lemma_rename_list_shares(*tail, h.dict, h.next);
            lemma_fresh_extension_chain(dict, h.dict, t.dict, next, h.next, t.next);
            lemma_substitute_term_stable(*head, h.dict, t.dict);
            assert forall|v: VarView| occurs_in_list(v, l) implies #[trigger] t.dict.contains_key(
                v,
            ) by {
                if occurs_in_term(v, *head) {
                    assert(h.dict.contains_key(v));
                }
            }
        },
    }
}

/// Renaming keeps the sharing of variables within a clause, between its
/// head and its body too.
pub proof fn lemma_rename_clause_shares(c: ClauseView, dict: Map<VarView, VarView>, next: nat)
    ensures
        fresh_extension(
            dict,
            rename_clause(c, dict, next).dict,
            next,
            rename_clause(c, dict, next).next,
        ),
        covers_clause(rename_clause(c, dict, next).dict, c),
        rename_clause(c, dict, next).value == substitute_clause(
            c,
            rename_clause(c, dict, next).dict,
        ),
{
    let h = rename_pred(c.head, dict, next);
    let b = rename_list(c.body, h.dict, h.next);
    lemma_rename_list_shares(c.head.args, dict, next);
    lemma_rename_list_shares(c.body, h.dict, h.next);
    lemma_fresh_extension_chain(dict, h.dict, b.dict, next, h.next, b.next);
    lemma_substitute_list_stable(c.head.args, h.dict, b.dict);
    assert forall|v: VarView| occurs_in_clause(v, c) implies #[trigger] b.dict.contains_key(v) by {
        if occurs_in_list(v, c.head.args) {
            assert(h.dict.contains_key(v));
        }
    }
}

/// A variable of a renamed term is the entry of a variable of the source.
pub proof fn lemma_substitute_term_occurs(t: TermView, m: Map<VarView, VarView>, w: VarView)
    requires
        covers_term(m, t),
        occurs_in_term(w, substitute_term(t, m)),
    ensures
        exists|v: VarView| occurs_in_term(v, t) && #[trigger] m.contains_key(v) && m[v] == w,
    decreases t,
{
    match t {
        TermView::Var(v) => {
            assert(occurs_in_term(v, t));
            assert(m.contains_key(v) && m[v] == w);
        },
        TermView::Pred(p) => {
            assert forall|v: VarView| occurs_in_list(v, p.args) implies #[trigger] m.contains_key(
                v,
            ) by {
                assert(occurs_in_term(v, t));
            }
            lemma_substitute_list_occurs(p.args, m, w);
            let v = choose|v: VarView|
                occurs_in_list(v, p.args) && #[trigger] m.contains_key(v) && m[v] == w;
            assert(occurs_in_term(v, t));
        },
        TermView::List(l) => {
            assert forall|v: VarView| occurs_in_list(v, l) implies #[trigger] m.contains_key(v) by {
                assert(occurs_in_term(v, t));
            }
            lemma_substitute_list_occurs(l, m, w);
            let v = choose|v: VarView|
                occurs_in_list(v, l) && #[trigger] m.contains_key(v) && m[v] == w;
            assert(occurs_in_term(v, t));
        },
    }
}

/// A variable of a renamed list is the entry of a variable of the source.
pub proof fn lemma_substitute_list_occurs(l: ListView, m: Map<VarView, VarView>, w: VarView)
    requires
        covers_list(m, l),
        occurs_in_list(w, substitute_list(l, m)),
    ensures
        exists|v: VarView| occurs_in_list(v, l) && #[trigger] m.contains_key(v) && m[v] == w,
    decreases l,
{
    match l {
        ListView::Nil => {},
        ListView::Cons(head, tail) => {
            assert forall|v: VarView| occurs_in_term(v, *head) implies #[trigger] m.contains_key(
                v,
            ) by {
                assert(occurs_in_list(v, l));
            }
            assert forall|v: VarView| occurs_in_list(v, *tail) implies #[trigger] m.contains_key(
                v,
            ) by {
                assert(occurs_in_list(v, l));
            }
            if occurs_in_term(w, substitute_term(*head, m)) {
                lemma_substitute_term_occurs(*head, m, w);
                let v = choose|v: VarView|
                    occurs_in_term(v, *head) && #[trigger] m.contains_key(v) && m[v] == w;
                assert(occurs_in_list(v, l));
            } else {
                lemma_substitute_list_occurs(*tail, m, w);
                let v = choose|v: VarView|
                    occurs_in_list(v, *tail) && #[trigger] m.contains_key(v) && m[v] == w;
                assert(occurs_in_list(v, l));
            }
        },
    }
}

/// The variables of a clause renamed with an empty dictionary are all
/// fresh: each has an identifier that the renaming took from the counter.
pub proof fn lemma_rename_clause_fresh(c: ClauseView, next: nat)
    ensures
        forall|v: VarView|
            occurs_in_clause(v, rename_clause(c, Map::empty(), next).value) ==> next <= v.id
                < rename_clause(c, Map::empty(), next).next,
{
    let r = rename_clause(c, Map::empty(), next);
    lemma_rename_clause_shares(c, Map::empty(), next);
    assert forall|w: VarView| occurs_in_clause(w, r.value) implies next <= w.id < r.next by {
        assert forall|v: VarView| occurs_in_list(v, c.head.args) implies #[trigger]
            r.dict.contains_key(v) by {
            assert(occurs_in_clause(v, c));
        }
        assert forall|v: VarView| occurs_in_list(v, c.body) implies #[trigger] r.dict.contains_key(
            v,
        ) by {
            assert(occurs_in_clause(v, c));
        }
        if occurs_in_list(w, r.value.head.args) {
            lemma_substitute_list_occurs(c.head.args, r.dict, w);
            let v = choose|v: VarView|
                occurs_in_list(v, c.head.args) && #[trigger] r.dict.contains_key(v) && r.dict[v]
                    == w;
            assert(r.dict[v].id >= next);
        } else {
            lemma_substitute_list_occurs(c.body, r.dict, w);
            let v = choose|v: VarView|
                occurs_in_list(v, c.body) && #[trigger] r.dict.contains_key(v) && r.dict[v] == w;
            assert(r.dict[v].id >= next);
        }
    }
}

/// A clause renamed with an empty dictionary shares no variable with its
/// source, provided the identifiers of the source lie below the counter.
pub proof fn lemma_rename_clause_apart(c: ClauseView, next: nat)
    requires
        forall|v: VarView| occurs_in_clause(v, c) ==> v.id < next,
    ensures
        forall|v: VarView|
            occurs_in_clause(v, rename_clause(c, Map::empty(), next).value) ==> !occurs_in_clause(
                v,
                c,
            ),
{
    lemma_rename_clause_fresh(c, next);
}

/// The map that a sequence of pairs stands for; of two pairs with the same
/// key the earlier one counts.
pub open spec fn pairs_map(pairs: Seq<(VarView, VarView)>) -> Map<VarView, VarView>
    decreases pairs.len(),
{
    if pairs.len() == 0 {
        Map::empty()
    } else {
        pairs_map(pairs.drop_first()).insert(pairs[0].0, pairs[0].1)
    }
}

/// A key that no pair has is not in the map.
proof fn lemma_pairs_map_absent(pairs: Seq<(VarView, VarView)>, v: VarView)
    requires
        forall|k: int| 0 <= k < pairs.len() ==> (#[trigger] pairs[k]).0 != v,
    ensures
        !pairs_map(pairs).contains_key(v),
    decreases pairs.len(),
{
    if pairs.len() > 0 {
        let rest = pairs.drop_first();
        assert forall|k: int| 0 <= k < rest.len() implies (#[trigger] rest[k]).0 != v by {
            assert(rest[k] == pairs[k + 1]);
        }
        lemma_pairs_map_absent(rest, v);
        assert(pairs[0].0 != v);
    }
}

/// The first pair with a key gives the key's entry.
proof fn lemma_pairs_map_first(pairs: Seq<(VarView, VarView)>, v: VarView, i: int)
    requires
        0 <= i < pairs.len(),
        pairs[i].0 == v,
        forall|k: int| 0 <= k < i ==> (#[trigger] pairs[k]).0 != v,
    ensures
        pairs_map(pairs).contains_key(v),
        pairs_map(pairs)[v] == pairs[i].1,
    decreases pairs.len(),
{
    if i > 0 {
        let rest = pairs.drop_first();
        assert forall|k: int| 0 <= k < i - 1 implies (#[trigger] rest[k]).0 != v by {
            assert(rest[k] == pairs[k + 1]);
        }
        assert(rest[i - 1] == pairs[i]);
        lemma_pairs_map_first(rest, v, i - 1);
        assert(pairs[0].0 != v);
    }
}

/// A pair with a new key, added at the end, is one more entry.
proof fn lemma_pairs_map_push(pairs: Seq<(VarView, VarView)>, v: VarView, w: VarView)
    requires
        !pairs_map(pairs).contains_key(v),
    ensures
        pairs_map(pairs.push((v, w))) == pairs_map(pairs).insert(v, w),
    decreases pairs.len(),
{
    let longer = pairs.push((v, w));
    if pairs.len() == 0 {
        assert(longer.drop_first() =~= Seq::empty());
        assert(pairs_map(longer.drop_first()) == Map::<VarView, VarView>::empty());
        assert(pairs_map(longer) == Map::<VarView, VarView>::empty().insert(v, w));
    } else {
        let rest = pairs.drop_first();
        assert(longer.drop_first() =~= rest.push((v, w)));
        assert(longer[0] == pairs[0]);
        lemma_pairs_map_push(rest, v, w);
        assert(pairs_map(longer) =~= pairs_map(pairs).insert(v, w));
    }
}

/// The dictionary of a renaming: which fresh variable stands for which
/// variable of the source.
pub struct Renaming {
    pairs: Vec<(Variable, Variable)>,
}

impl View for Renaming {
    type V = Map<VarView, VarView>;

    closed spec fn view(&self) -> Map<VarView, VarView> {
        pairs_map(Seq::new(self.pairs@.len(), |i: int| (self.pairs@[i].0@, self.pairs@[i].1@)))
    }
}

impl Renaming {
    /// A dictionary without entries.
    pub fn new() -> (r: Self)
        ensures
            r@ == Map::<VarView, VarView>::empty(),
    {
        Renaming { pairs: Vec::new() }
    }

    /// The fresh variable that stands for `v`, if the dictionary has one.
    pub fn get(&self, v: &Variable) -> (r: Option<&Variable>)
        ensures
            match r {
                Some(w) => self@.contains_key(v@) && self@[v@] == w@,
                None => !self@.contains_key(v@),
            },
    {
        let ghost pairs = Seq::new(self.pairs@.len(), |i: int| (self.pairs@[i].0@, self.pairs@[i].1@));
        let mut i: usize = 0;
        while i < self.pairs.len()
            invariant
                i <= self.pairs.len(),
                pairs == Seq::new(self.pairs@.len(), |i: int| (self.pairs@[i].0@, self.pairs@[i].1@)),
                forall|k: int| 0 <= k < i ==> (#[trigger] pairs[k]).0 != v@,
            decreases self.pairs.len() - i,
        {
            if self.pairs[i].0 == *v {
                proof {
                    lemma_pairs_map_first(pairs, v@, i as int);
                }
                return Some(&self.pairs[i].1);
            }
            i += 1;
        }
        proof {
            lemma_pairs_map_absent(pairs, v@);
        }
        None
    }

    /// Lets `w` stand for `v`, which has no entry yet.
    pub fn insert(&mut self, v: Variable, w: Variable)
        requires
            !old(self)@.contains_key(v@),
        ensures
            final(self)@ == old(self)@.insert(v@, w@),
    {
        let ghost before = Seq::new(
            self.pairs@.len(),
            |i: int| (self.pairs@[i].0@, self.pairs@[i].1@),
        );
        let ghost pair = (v@, w@);
        self.pairs.push((v, w));
        proof {
            let after = Seq::new(self.pairs@.len(), |i: int| (self.pairs@[i].0@, self.pairs@[i].1@));
            assert(after =~= before.push(pair));
            lemma_pairs_map_push(before, pair.0, pair.1);
        }
    }
}

impl Atom {
    /// An atom holds no variable: its copy under a renaming is the atom.
    pub fn instantiate(&self, dict: &mut Renaming) -> (r: Self)
        ensures
            r@ == self@,
            final(dict)@ == old(dict)@,
    {
        self.clone()
    }
}

impl Variable {
    /// The fresh variable that stands for `self` under `dict`; made, and
    /// entered in `dict`, if `self` has none yet.
    pub fn instantiate(&self, store: &mut Store, dict: &mut Renaming) -> (r: Self)
        requires
            rename_var(self@, old(dict)@, old(store)@.next).next <= usize::MAX,
        ensures
            ({
                let renamed = rename_var(self@, old(dict)@, old(store)@.next);
                &&& r@ == renamed.value
                &&& final(dict)@ == renamed.dict
                &&& final(store)@ == (StoreView { next: renamed.next, ..old(store)@ })
            }),
    {
        match dict.get(self) {
            Some(w) => w.clone(),
            None => {
                let fresh = Variable::brand_new(self.name.clone(), store);
                dict.insert(self.clone(), fresh.clone());
                fresh
            },
        }
    }
}

impl Term {
    /// A copy of the term with fresh variables for the variables that `dict`
    /// does not know, which `dict` then holds.
    pub fn instantiate(&self, store: &mut Store, dict: &mut Renaming) -> (r: Self)
        requires
            rename_term(self@, old(dict)@, old(store)@.next).next <= usize::MAX,
        ensures
            ({
                let renamed = rename_term(self@, old(dict)@, old(store)@.next);
                &&& r@ == renamed.value
                &&& final(dict)@ == renamed.dict
                &&& final(store)@ == (StoreView { next: renamed.next, ..old(store)@ })
            }),
        decreases self,
    {
        match self {
            Term::Var(v) => Term::Var(v.instantiate(store, dict)),
            Term::Pred(p) => Term::Pred(p.instantiate(store, dict)),
            Term::List(l) => Term::List(l.instantiate(store, dict)),
        }
    }
}

impl Predicate {
    /// A copy of the predicate with fresh variables for the variables that `dict`
    /// does not know, which `dict` then holds.
    pub fn instantiate(&self, store: &mut Store, dict: &mut Renaming) -> (r: Self)
        requires
            rename_pred(self@, old(dict)@, old(store)@.next).next <= usize::MAX,
        ensures
            ({
                let renamed = rename_pred(self@, old(dict)@, old(store)@.next);
                &&& r@ == renamed.value
                &&& final(dict)@ == renamed.dict
                &&& final(store)@ == (StoreView { next: renamed.next, ..old(store)@ })
            }),
        decreases self,
    {
        let name = self.name.instantiate(dict);
        let arguments = self.arguments.instantiate(store, dict);
        Predicate { name, arguments }
    }
}

impl List {
    /// A copy of the list with fresh variables for the variables that `dict`
    /// does not know, which `dict` then holds.
    pub fn instantiate(&self, store: &mut Store, dict: &mut Renaming) -> (r: Self)
        requires
            rename_list(self@, old(dict)@, old(store)@.next).next <= usize::MAX,
        ensures
            ({
                let renamed = rename_list(self@, old(dict)@, old(store)@.next);
                &&& r@ == renamed.value
                &&& final(dict)@ == renamed.dict
                &&& final(store)@ == (StoreView { next: renamed.next, ..old(store)@ })
            }),
        decreases self,
    {
        match self {
            List::Nil => List::Nil,
            List::Cons(head, tail) => {
                proof {
                    let h = rename_term(head@, dict@, store@.next);
                    lemma_rename_list_next(tail@, h.dict, h.next);
                }
                let h = head.instantiate(store, dict);
                let t = tail.instantiate(store, dict);
                List::Cons(Box::new(h), Box::new(t))
            },
        }
    }
}

impl Clause {
    /// A copy of the clause with fresh variables for the variables that `dict`
    /// does not know, which `dict` then holds.
    pub fn instantiate(&self, store: &mut Store, dict: &mut Renaming) -> (r: Self)
        requires
            rename_clause(self@, old(dict)@, old(store)@.next).next <= usize::MAX,
        ensures
            ({
                let renamed = rename_clause(self@, old(dict)@, old(store)@.next);
                &&& r@ == renamed.value
                &&& final(dict)@ == renamed.dict
                &&& final(store)@ == (StoreView { next: renamed.next, ..old(store)@ })
            }),
    {
        proof {
            let h = rename_pred(self.result@, dict@, store@.next);
            lemma_rename_list_next(self.conditions@, h.dict, h.next);
        }
        let result = self.result.instantiate(store, dict);
        let conditions = self.conditions.instantiate(store, dict);
        Clause { result, conditions }
    }
}

impl Term {
    /// Whether the term has at most `budget` occurrences of variables, and
    /// if so how much of the budget they leave.
    pub fn spend(&self, budget: usize) -> (r: Option<usize>)
        ensures
            match r {
                Some(left) => left + term_occurrences(self@) == budget,
                None => term_occurrences(self@) > budget,
            },
        decreases self,
    {
        match self {
            Term::Var(_) => if budget == 0 {
                None
            } else {
                Some(budget - 1)
            },
            Term::Pred(p) => p.arguments.spend(budget),
            Term::List(l) => l.spend(budget),
        }
    }
}

impl List {
    /// Whether the elements have at most `budget` occurrences of variables,
    /// and if so how much of the budget they leave.
    pub fn spend(&self, budget: usize) -> (r: Option<usize>)
        ensures
            match r {
                Some(left) => left + list_occurrences(self@) == budget,
                None => list_occurrences(self@) > budget,
            },
        decreases self,
    {
        match self {
            List::Nil => Some(budget),
            List::Cons(head, tail) => match head.spend(budget) {
                Some(left) => tail.spend(left),
                None => None,
            },
        }
    }
}

impl Clause {
    /// Whether the clause has at most `budget` occurrences of variables.
    pub fn fits(&self, budget: usize) -> (r: bool)
        ensures
            r == (clause_occurrences(self@) <= budget),
    {
        match self.result.arguments.spend(budget) {
            Some(left) => self.conditions.spend(left).is_some(),
            None => false,
        }
    }
}

impl Term {
    /// A copy of the term renamed with an empty dictionary; or `None`, and
    /// the store as it was, where the counter cannot give an identifier
    /// for each occurrence of a variable.
    pub fn renamed_apart(&self, store: &mut Store) -> (r: Option<Term>)
        ensures
            ({
                let renamed = rename_term(self@, Map::empty(), old(store)@.next);
                if old(store)@.next + term_occurrences(self@) <= usize::MAX {
                    &&& r matches Some(t)
                    &&& t@ == renamed.value
                    &&& final(store)@ == (StoreView { next: renamed.next, ..old(store)@ })
                } else {
                    r is None && final(store)@ == old(store)@
                }
            }),
    {
        if self.spend(usize::MAX - store.peek_id()).is_none() {
            return None;
        }
        proof {
            lemma_rename_term_next(self@, Map::empty(), store@.next);
        }
        let mut dict = Renaming::new();
        Some(self.instantiate(store, &mut dict))
    }
}

impl Clause {
    /// A copy of the clause renamed with an empty dictionary, so as a
    /// whole; or `None`, and the store as it was, where the counter cannot
    /// give an identifier for each occurrence of a variable.
    pub fn renamed_apart(&self, store: &mut Store) -> (r: Option<Clause>)
        ensures
            ({
                let renamed = rename_clause(self@, Map::empty(), old(store)@.next);
                if old(store)@.next + clause_occurrences(self@) <= usize::MAX {
                    &&& r matches Some(c)
                    &&& c@ == renamed.value
                    &&& final(store)@ == (StoreView { next: renamed.next, ..old(store)@ })
                } else {
                    r is None && final(store)@ == old(store)@
                }
            }),
    {
        if !self.fits(usize::MAX - store.peek_id()) {
            return None;
        }
        proof {
            lemma_rename_clause_next(self@, Map::empty(), store@.next);
        }
        let mut dict = Renaming::new();
        Some(self.instantiate(store, &mut dict))
    }
}

} // verus!
