//! The substitution store: the source of fresh variable identifiers and the
//! binding cells of the variables, kept as a trail in the order in which
//! the bindings were made.

use vstd::prelude::*;
use crate::term::{Term, TermView, VarView, Variable};

verus! {

/// One binding cell that has been written: `var` stands for `term`.
pub struct Binding {
    pub var: Variable,
    pub term: Term,
}

pub struct BindingView {
    pub var: VarView,
    pub term: TermView,
}

impl View for Binding {
    type V = BindingView;

    open spec fn view(&self) -> BindingView {
        BindingView { var: self.var@, term: self.term@ }
    }
}

pub struct StoreView {
    /// The bindings, oldest first.
    pub trail: Seq<BindingView>,
    /// The identifier that the next fresh variable gets.
    pub next: nat,
    pub debug: bool,
    pub level: nat,
}

/// Whether `v` has a binding in `trail`.
pub open spec fn is_bound(trail: Seq<BindingView>, v: VarView) -> bool {
    exists|i: int| 0 <= i < trail.len() && (#[trigger] trail[i]).var == v
}

/// A trail is well formed when no variable is bound twice and a binding
/// whose term is a variable names one that was unbound when it was made.
pub open spec fn trail_wf(trail: Seq<BindingView>) -> bool {
    &&& forall|i: int, j: int|
        0 <= i < j < trail.len() ==> (#[trigger] trail[i]).var != (#[trigger] trail[j]).var
    &&& forall|k: int, i: int|
        0 <= k <= i < trail.len() ==> (#[trigger] trail[i]).term != TermView::Var(
            (#[trigger] trail[k]).var,
        )
}

/// Follows bindings from `t` through the entries of `trail` at `i` and after.
pub open spec fn walk_from(trail: Seq<BindingView>, t: TermView, i: int) -> TermView
    decreases trail.len() - i,
{
    if i < 0 || i >= trail.len() {
        t
    } else if t == TermView::Var(trail[i].var) {
        walk_from(trail, trail[i].term, i + 1)
    } else {
        walk_from(trail, t, i + 1)
    }
}

/// Dereferences `t`: a bound variable stands for what its binding walks to;
/// any other term stands for itself.
pub open spec fn walk(trail: Seq<BindingView>, t: TermView) -> TermView {
    walk_from(trail, t, 0)
}

/// Whether `t` is a variable with a binding among the first `n` entries.
pub open spec fn bound_before(trail: Seq<BindingView>, t: TermView, n: int) -> bool {
    exists|k: int| 0 <= k < n && k < trail.len() && t == TermView::Var((#[trigger] trail[k]).var)
}

/// A walk passes over entries that do not bind the term walked.
proof fn lemma_walk_from_skips(trail: Seq<BindingView>, t: TermView, i: int, j: int)
    requires
        0 <= i <= j,
        forall|k: int| i <= k < j && k < trail.len() ==> t != TermView::Var((#[trigger] trail[k]).var),
    ensures
        walk_from(trail, t, i) == walk_from(trail, t, j),
    decreases j - i,
{
    if i < j && i < trail.len() {
        assert(t != TermView::Var(trail[i].var));
        lemma_walk_from_skips(trail, t, i + 1, j);
    } else if i < j {
        lemma_walk_from_end(trail, t, i);
        lemma_walk_from_end(trail, t, j);
    }
}

proof fn lemma_walk_from_end(trail: Seq<BindingView>, t: TermView, i: int)
    requires
        i >= trail.len(),
    ensures
        walk_from(trail, t, i) == t,
{
}

proof fn lemma_walk_from_unbound(trail: Seq<BindingView>, t: TermView, i: int)
    requires
        trail_wf(trail),
        0 <= i,
        !bound_before(trail, t, i),
    ensures
        !bound_before(trail, walk_from(trail, t, i), trail.len() as int),
    decreases trail.len() - i,
{
    if i < trail.len() {
        if t == TermView::Var(trail[i].var) {
            let u = trail[i].term;
            assert(!bound_before(trail, u, i + 1)) by {
                if bound_before(trail, u, i + 1) {
                    let k = choose|k: int|
                        0 <= k < i + 1 && k < trail.len() && u == TermView::Var(
                            (#[trigger] trail[k]).var,
                        );
                    assert(trail[i].term != TermView::Var(trail[k].var));
                }
            }
            lemma_walk_from_unbound(trail, u, i + 1);
        } else {
            assert(!bound_before(trail, t, i + 1)) by {
                if bound_before(trail, t, i + 1) {
                    let k = choose|k: int|
                        0 <= k < i + 1 && k < trail.len() && t == TermView::Var(
                            (#[trigger] trail[k]).var,
                        );
                    if k < i {
                        assert(bound_before(trail, t, i));
                    }
                }
            }
            lemma_walk_from_unbound(trail, t, i + 1);
        }
    } else {
        if bound_before(trail, t, trail.len() as int) {
            let k = choose|k: int|
                0 <= k < trail.len() && k < trail.len() && t == TermView::Var(
                    (#[trigger] trail[k]).var,
                );
            assert(bound_before(trail, t, i));
        }
    }
}

/// A walk ends at a term that is not a bound variable.
pub proof fn lemma_walk_unbound(trail: Seq<BindingView>, t: TermView)
    requires
        trail_wf(trail),
    ensures
        forall|v: VarView| walk(trail, t) == TermView::Var(v) ==> !is_bound(trail, v),
{
    lemma_walk_from_unbound(trail, t, 0);
    assert forall|v: VarView| walk(trail, t) == TermView::Var(v) implies !is_bound(trail, v) by {
        if is_bound(trail, v) {
            let i = choose|i: int| 0 <= i < trail.len() && (#[trigger] trail[i]).var == v;
            assert(bound_before(trail, walk(trail, t), trail.len() as int));
        }
    }
}

/// A term that is not a bound variable walks to itself.
pub proof fn lemma_walk_fixed(trail: Seq<BindingView>, t: TermView)
    requires
        forall|v: VarView| t == TermView::Var(v) ==> !is_bound(trail, v),
    ensures
        walk(trail, t) == t,
{
    assert forall|k: int| 0 <= k < trail.len() implies t != TermView::Var(
        (#[trigger] trail[k]).var,
    ) by {
        if t == TermView::Var(trail[k].var) {
            assert(is_bound(trail, trail[k].var));
        }
    }
    lemma_walk_from_skips(trail, t, 0, trail.len() as int);
}

/// A bound variable walks to what the term of its binding walks to.
pub proof fn lemma_walk_bound(trail: Seq<BindingView>, i: int)
    requires
        trail_wf(trail),
        0 <= i < trail.len(),
    ensures
        walk(trail, TermView::Var(trail[i].var)) == walk(trail, trail[i].term),
{
    let t = TermView::Var(trail[i].var);
    let u = trail[i].term;
    assert forall|k: int| 0 <= k < i && k < trail.len() implies t != TermView::Var(
        (#[trigger] trail[k]).var,
    ) by {
        assert(trail[k].var != trail[i].var);
    }
    lemma_walk_from_skips(trail, t, 0, i);
    assert(walk_from(trail, t, i) == walk_from(trail, u, i + 1));
    assert forall|k: int| 0 <= k < i + 1 && k < trail.len() implies u != TermView::Var(
        (#[trigger] trail[k]).var,
    ) by {
        assert(trail[i].term != TermView::Var(trail[k].var));
    }
    lemma_walk_from_skips(trail, u, 0, i + 1);
}

/// Walking twice is walking once.
pub proof fn lemma_walk_idempotent(trail: Seq<BindingView>, t: TermView)
    requires
        trail_wf(trail),
    ensures
        walk(trail, walk(trail, t)) == walk(trail, t),
{
    lemma_walk_unbound(trail, t);
    lemma_walk_fixed(trail, walk(trail, t));
}

/// `longer` keeps every entry of `shorter`, in place, and may add entries.
pub open spec fn extends(longer: Seq<BindingView>, shorter: Seq<BindingView>) -> bool {
    shorter.len() <= longer.len() && longer.take(shorter.len() as int) == shorter
}

proof fn lemma_walk_from_prefix(longer: Seq<BindingView>, shorter: Seq<BindingView>, t: TermView, i: int)
    requires
        extends(longer, shorter),
        0 <= i <= shorter.len(),
    ensures
        walk_from(longer, t, i) == walk_from(longer, walk_from(shorter, t, i), shorter.len() as int),
    decreases shorter.len() - i,
{
    if i < shorter.len() {
        assert(longer[i] == longer.take(shorter.len() as int)[i]);
        if t == TermView::Var(shorter[i].var) {
            lemma_walk_from_prefix(longer, shorter, shorter[i].term, i + 1);
        } else {
            lemma_walk_from_prefix(longer, shorter, t, i + 1);
        }
    }
}

/// Under a longer trail a term walks to what its walk under the shorter
/// trail walks to.
pub proof fn lemma_walk_extends(longer: Seq<BindingView>, shorter: Seq<BindingView>, t: TermView)
    requires
        trail_wf(shorter),
        extends(longer, shorter),
    ensures
        walk(longer, t) == walk(longer, walk(shorter, t)),
{
    let x = walk(shorter, t);
    let n = shorter.len() as int;
    lemma_walk_from_prefix(longer, shorter, t, 0);
    lemma_walk_unbound(shorter, t);
    assert forall|k: int| 0 <= k < n && k < longer.len() implies x != TermView::Var(
        (#[trigger] longer[k]).var,
    ) by {
        assert(longer[k] == longer.take(n)[k]);
        if x == TermView::Var(shorter[k].var) {
            assert(is_bound(shorter, shorter[k].var));
        }
    }
    lemma_walk_from_skips(longer, x, 0, n);
}

/// After one more binding, a term walks to the new binding's term if it
/// walked to the newly bound variable, and to what it walked to otherwise.
pub proof fn lemma_walk_push(trail: Seq<BindingView>, b: BindingView, t: TermView)
    requires
        trail_wf(trail),
    ensures
        walk(trail.push(b), t) == if walk(trail, t) == TermView::Var(b.var) {
            b.term
        } else {
            walk(trail, t)
        },
{
    let longer = trail.push(b);
    let n = trail.len() as int;
    assert(longer.take(n) == trail);
    lemma_walk_from_prefix(longer, trail, t, 0);
    let x = walk(trail, t);
    assert(longer[n] == b);
    lemma_walk_from_end(longer, b.term, n + 1);
    lemma_walk_from_end(longer, x, n + 1);
}

/// Binding an unbound variable to a term that is neither a bound variable
/// nor the variable itself keeps the trail well formed.
pub proof fn lemma_push_wf(trail: Seq<BindingView>, b: BindingView)
    requires
        trail_wf(trail),
        !is_bound(trail, b.var),
        b.term != TermView::Var(b.var),
        forall|v: VarView| b.term == TermView::Var(v) ==> !is_bound(trail, v),
    ensures
        trail_wf(trail.push(b)),
        extends(trail.push(b), trail),
{
    let longer = trail.push(b);
    let n = trail.len() as int;
    assert(longer.take(n) == trail);
    assert forall|i: int, j: int| 0 <= i < j < longer.len() implies (#[trigger] longer[i]).var != (
    #[trigger] longer[j]).var by {
        if j == n {
            if longer[i].var == b.var {
                assert(trail[i].var == b.var);
                assert(is_bound(trail, b.var));
            }
        } else {
            assert(trail[i].var != trail[j].var);
        }
    }
    assert forall|k: int, i: int| 0 <= k <= i < longer.len() implies (#[trigger] longer[i]).term
        != TermView::Var((#[trigger] longer[k]).var) by {
        if i == n {
            if k < n {
                if b.term == TermView::Var(trail[k].var) {
                    assert(is_bound(trail, trail[k].var));
                }
            }
        } else {
            assert(trail[i].term != TermView::Var(trail[k].var));
        }
    }
}

/// A prefix of a well-formed trail is well formed.
pub proof fn lemma_take_wf(trail: Seq<BindingView>, n: int)
    requires
        trail_wf(trail),
        0 <= n <= trail.len(),
    ensures
        trail_wf(trail.take(n)),
        extends(trail, trail.take(n)),
{
    let shorter = trail.take(n);
    assert(trail.take(shorter.len() as int) == shorter);
    assert forall|i: int, j: int| 0 <= i < j < shorter.len() implies (#[trigger] shorter[i]).var != (
    #[trigger] shorter[j]).var by {
        assert(trail[i].var != trail[j].var);
    }
    assert forall|k: int, i: int| 0 <= k <= i < shorter.len() implies (#[trigger] shorter[i]).term
        != TermView::Var((#[trigger] shorter[k]).var) by {
        assert(trail[i].term != TermView::Var(trail[k].var));
    }
}

/// A trail that extends an extension of a trail extends that trail.
pub proof fn lemma_extends_transitive(a: Seq<BindingView>, b: Seq<BindingView>, c: Seq<BindingView>)
    requires
        extends(a, b),
        extends(b, c),
    ensures
        extends(a, c),
{
    assert(a.take(c.len() as int) =~= c) by {
        assert forall|i: int| 0 <= i < c.len() implies a.take(c.len() as int)[i] == c[i] by {
            assert(b.take(c.len() as int)[i] == c[i]);
            assert(a.take(b.len() as int)[i] == b[i]);
        }
    }
}

/// The term of the first binding of `v` among the entries at `i` and after.
pub open spec fn cell_from(trail: Seq<BindingView>, v: VarView, i: int) -> Option<TermView>
    decreases trail.len() - i,
{
    if i < 0 || i >= trail.len() {
        None
    } else if trail[i].var == v {
        Some(trail[i].term)
    } else {
        cell_from(trail, v, i + 1)
    }
}

/// What the binding cell of `v` holds: the term that `v` is bound to, if any.
pub open spec fn cell(trail: Seq<BindingView>, v: VarView) -> Option<TermView> {
    cell_from(trail, v, 0)
}

proof fn lemma_cell_from(trail: Seq<BindingView>, v: VarView, i: int)
    requires
        0 <= i,
    ensures
        cell_from(trail, v, i) is Some <==> exists|k: int|
            i <= k < trail.len() && (#[trigger] trail[k]).var == v,
    decreases trail.len() - i,
{
    if i < trail.len() {
        if trail[i].var == v {
        } else {
            lemma_cell_from(trail, v, i + 1);
            if cell_from(trail, v, i) is Some {
                let k = choose|k: int| i + 1 <= k < trail.len() && (#[trigger] trail[k]).var == v;
                assert(i <= k < trail.len() && trail[k].var == v);
            } else {
                if exists|k: int| i <= k < trail.len() && (#[trigger] trail[k]).var == v {
                    let k = choose|k: int| i <= k < trail.len() && (#[trigger] trail[k]).var == v;
                    assert(i + 1 <= k < trail.len() && trail[k].var == v);
                }
            }
        }
    }
}

/// A variable is bound exactly when its cell holds a term.
pub proof fn lemma_cell_bound(trail: Seq<BindingView>, v: VarView)
    ensures
        cell(trail, v) is Some <==> is_bound(trail, v),
{
    lemma_cell_from(trail, v, 0);
    if is_bound(trail, v) {
        let k = choose|k: int| 0 <= k < trail.len() && (#[trigger] trail[k]).var == v;
        assert(0 <= k < trail.len() && trail[k].var == v);
    }
}

proof fn lemma_cell_from_walk(trail: Seq<BindingView>, v: VarView, i: int)
    requires
        trail_wf(trail),
        0 <= i,
    ensures
        match cell_from(trail, v, i) {
            Some(u) => walk_from(trail, TermView::Var(v), i) == walk(trail, u),
            None => walk_from(trail, TermView::Var(v), i) == TermView::Var(v),
        },
    decreases trail.len() - i,
{
    if i < trail.len() {
        if trail[i].var == v {
            let u = trail[i].term;
            assert forall|k: int| 0 <= k < i + 1 && k < trail.len() implies u != TermView::Var(
                (#[trigger] trail[k]).var,
            ) by {
                assert(trail[i].term != TermView::Var(trail[k].var));
            }
            lemma_walk_from_skips(trail, u, 0, i + 1);
        } else {
            lemma_cell_from_walk(trail, v, i + 1);
        }
    }
}

/// The defining equations of `walk`: a variable whose cell holds `u` walks
/// to what `u` walks to, an unbound variable and any term that is not a
/// variable walk to themselves.
pub proof fn lemma_walk_unfold(trail: Seq<BindingView>, t: TermView)
    requires
        trail_wf(trail),
    ensures
        walk(trail, t) == match t {
            TermView::Var(v) => match cell(trail, v) {
                Some(u) => walk(trail, u),
                None => t,
            },
            _ => t,
        },
{
    match t {
        TermView::Var(v) => {
            lemma_cell_from_walk(trail, v, 0);
        },
        _ => {
            lemma_walk_from_skips(trail, t, 0, trail.len() as int);
        },
    }
}

/// The trail in which the cell of the `i`-th binding holds what its
/// variable walks to.
pub open spec fn compressed(trail: Seq<BindingView>, i: int) -> Seq<BindingView> {
    trail.update(
        i,
        BindingView { var: trail[i].var, term: walk(trail, TermView::Var(trail[i].var)) },
    )
}

proof fn lemma_compressed_walk_from(trail: Seq<BindingView>, i: int, t: TermView, j: int)
    requires
        trail_wf(trail),
        0 <= i < trail.len(),
        0 <= j,
    ensures
        walk_from(compressed(trail, i), t, j) == walk_from(trail, t, j),
    decreases trail.len() - j,
{
    let after = compressed(trail, i);
    if j < trail.len() {
        if j == i {
            if t == TermView::Var(trail[i].var) {
                let target = walk(trail, t);
                lemma_walk_bound(trail, i);
                lemma_walk_unbound(trail, t);
                assert forall|k: int| 0 <= k < trail.len() implies target != TermView::Var(
                    (#[trigger] trail[k]).var,
                ) by {
                    if target == TermView::Var(trail[k].var) {
                        assert(is_bound(trail, trail[k].var));
                    }
                }
                lemma_walk_from_skips(trail, target, i + 1, trail.len() as int);
                lemma_walk_from_end(trail, target, trail.len() as int);
                lemma_compressed_walk_from(trail, i, target, i + 1);
                let u = trail[i].term;
                assert forall|k: int| 0 <= k < i + 1 && k < trail.len() implies u != TermView::Var(
                    (#[trigger] trail[k]).var,
                ) by {
                    assert(trail[i].term != TermView::Var(trail[k].var));
                }
                lemma_walk_from_skips(trail, u, 0, i + 1);
            } else {
                lemma_compressed_walk_from(trail, i, t, j + 1);
            }
        } else {
            assert(after[j] == trail[j]);
            if t == TermView::Var(trail[j].var) {
                lemma_compressed_walk_from(trail, i, trail[j].term, j + 1);
            } else {
                lemma_compressed_walk_from(trail, i, t, j + 1);
            }
        }
    }
}

/// Compressing a cell keeps the trail well formed and changes what no term
/// walks to.
pub proof fn lemma_compressed(trail: Seq<BindingView>, i: int)
    requires
        trail_wf(trail),
        0 <= i < trail.len(),
    ensures
        trail_wf(compressed(trail, i)),
        forall|t: TermView| #[trigger] walk(compressed(trail, i), t) == walk(trail, t),
{
    let after = compressed(trail, i);
    let target = walk(trail, TermView::Var(trail[i].var));
    lemma_walk_unbound(trail, TermView::Var(trail[i].var));
    assert forall|a: int, b: int| 0 <= a < b < after.len() implies (#[trigger] after[a]).var != (
    #[trigger] after[b]).var by {
        assert(trail[a].var != trail[b].var);
    }
    assert forall|k: int, j: int| 0 <= k <= j < after.len() implies (#[trigger] after[j]).term
        != TermView::Var((#[trigger] after[k]).var) by {
        if j == i {
            if target == TermView::Var(trail[k].var) {
                assert(is_bound(trail, trail[k].var));
            }
        } else {
            assert(trail[j].term != TermView::Var(trail[k].var));
        }
    }
    assert forall|t: TermView| #[trigger] walk(after, t) == walk(trail, t) by {
        lemma_compressed_walk_from(trail, i, t, 0);
    }
}

/// The store: the trail of bindings, the counter of fresh identifiers, and
/// the tracing flag with its indentation level.
pub struct Store {
    trail: Vec<Binding>,
    next: usize,
    debug: bool,
    level: usize,
}

impl View for Store {
    type V = StoreView;

    closed spec fn view(&self) -> StoreView {
        StoreView {
            trail: Seq::new(self.trail@.len(), |i: int| self.trail@[i]@),
            next: self.next as nat,
            debug: self.debug,
            level: self.level as nat,
        }
    }
}

impl Store {
    pub open spec fn wf(&self) -> bool {
        trail_wf(self@.trail)
    }

    /// An empty store: nothing is bound, the first fresh identifier is 1,
    /// tracing is off.
    pub fn new() -> (r: Self)
        ensures
            r@ == (StoreView { trail: Seq::empty(), next: 1, debug: false, level: 0 }),
            r.wf(),
    {
        let r = Store { trail: Vec::new(), next: 1, debug: false, level: 0 };
        assert(r@.trail =~= Seq::empty());
        r
    }

    /// An empty store whose first fresh identifier is `next`.
    pub fn starting_at(next: usize) -> (r: Self)
        ensures
            r@ == (StoreView { trail: Seq::empty(), next: next as nat, debug: false, level: 0 }),
            r.wf(),
    {
        let r = Store { trail: Vec::new(), next, debug: false, level: 0 };
        assert(r@.trail =~= Seq::empty());
        r
    }

    /// The number of bindings made so far.
    pub fn mark(&self) -> (n: usize)
        ensures
            n == self@.trail.len(),
    {
        self.trail.len()
    }

    /// Undoes every binding made since the trail had `mark` entries.
    pub(crate) fn rewind(&mut self, mark: usize)
        requires
            old(self).wf(),
            mark <= old(self)@.trail.len(),
        ensures
            final(self)@ == (StoreView { trail: old(self)@.trail.take(mark as int), ..old(self)@ }),
            final(self).wf(),
    {
        self.trail.truncate(mark);
        proof {
            assert(self@.trail =~= old(self)@.trail.take(mark as int));
            lemma_take_wf(old(self)@.trail, mark as int);
        }
    }

    /// The identifier that the next fresh variable would get.
    pub fn peek_id(&self) -> (n: usize)
        ensures
            n == self@.next,
    {
        self.next
    }

    /// What the binding cell of `v` holds.
    pub fn lookup(&self, v: &Variable) -> (r: Option<&Term>)
        ensures
            match r {
                Some(t) => cell(self@.trail, v@) == Some(t@),
                None => cell(self@.trail, v@) is None,
            },
    {
        let mut i: usize = 0;
        while i < self.trail.len()
            invariant
                i <= self.trail.len(),
                cell_from(self@.trail, v@, i as int) == cell(self@.trail, v@),
            decreases self.trail.len() - i,
        {
            if self.trail[i].var == *v {
                return Some(&self.trail[i].term);
            }
            i += 1;
        }
        None
    }

    /// Dereferences `t` through the binding cells.
    pub fn walk<'a>(&'a self, t: &'a Term) -> (r: &'a Term)
        ensures
            r@ == walk(self@.trail, t@),
    {
        let mut cur: &Term = t;
        let mut i: usize = 0;
        while i < self.trail.len()
            invariant
                i <= self.trail.len(),
                walk_from(self@.trail, cur@, i as int) == walk(self@.trail, t@),
            decreases self.trail.len() - i,
        {
            match cur {
                Term::Var(v) => {
                    if self.trail[i].var == *v {
                        cur = &self.trail[i].term;
                    }
                },
                _ => {
                    proof {
                        lemma_walk_from_skips(self@.trail, cur@, i as int, self@.trail.len() as int);
                    }
                    return cur;
                },
            }
            i += 1;
        }
        cur
    }

    /// Writes the binding cell of `var`.
    pub fn bind(&mut self, var: Variable, term: Term)
        requires
            old(self).wf(),
            !is_bound(old(self)@.trail, var@),
            term@ != TermView::Var(var@),
            forall|v: VarView| term@ == TermView::Var(v) ==> !is_bound(old(self)@.trail, v),
        ensures
            final(self)@ == (StoreView {
                trail: old(self)@.trail.push(BindingView { var: var@, term: term@ }),
                ..old(self)@
            }),
            final(self).wf(),
    {
        let ghost b = BindingView { var: var@, term: term@ };
        self.trail.push(Binding { var, term });
        proof {
            assert(self@.trail =~= old(self)@.trail.push(b));
            lemma_push_wf(old(self)@.trail, b);
        }
    }
}

/// Hands out a fresh identifier: the counter's value, which then moves past
/// it, so that no identifier is handed out twice.
pub fn next_id(store: &mut Store) -> (id: usize)
    requires
        old(store)@.next < usize::MAX,
    ensures
        id == old(store)@.next,
        final(store)@ == (StoreView { next: old(store)@.next + 1, ..old(store)@ }),
{
    let id = store.next;
    store.next = store.next + 1;
    id
}

impl Variable {
    /// Shortens the chain of bindings that starts at this variable: its
    /// cell then holds what the variable walks to, be that a term or the
    /// unbound variable at which the chain ends. An unbound variable stays
    /// unbound. No term walks to anything else than before.
    pub fn compress(&self, store: &mut Store)
        requires
            old(store).wf(),
        ensures
            final(store).wf(),
            forall|t: TermView| #[trigger]
                walk(final(store)@.trail, t) == walk(old(store)@.trail, t),
            !is_bound(old(store)@.trail, self@) ==> final(store)@ == old(store)@,
            is_bound(old(store)@.trail, self@) ==> exists|i: int|
                0 <= i < old(store)@.trail.len() && (#[trigger] old(store)@.trail[i]).var == self@
                    && final(store)@ == (StoreView {
                    trail: compressed(old(store)@.trail, i),
                    ..old(store)@
                }),
    {
        let mut i: usize = 0;
        while i < store.trail.len()
            invariant
                i <= store.trail.len(),
                store.wf(),
                *store == *old(store),
                forall|k: int| 0 <= k < i ==> (#[trigger] store@.trail[k]).var != self@,
            decreases store.trail.len() - i,
        {
            if store.trail[i].var == *self {
                let target = store.walk(&store.trail[i].term).clone();
                proof {
                    lemma_walk_bound(store@.trail, i as int);
                    lemma_compressed(store@.trail, i as int);
                }
                store.trail.set(i, Binding { var: self.clone(), term: target });
                assert(store@.trail =~= compressed(old(store)@.trail, i as int));
                return ;
            }
            i += 1;
        }
        assert(!is_bound(store@.trail, self@));
    }

    /// A variable with an identifier that no variable made before it from
    /// this store has: the store's counter, which then moves on.
    pub fn brand_new(name: String, store: &mut Store) -> (r: Self)
        requires
            old(store)@.next < usize::MAX,
        ensures
            r@ == (VarView { name: name@, id: old(store)@.next }),
            final(store)@ == (StoreView { next: old(store)@.next + 1, ..old(store)@ }),
    {
        let id = next_id(store);
        Variable { name, id }
    }
}

/// Switches tracing on or off.
pub fn set_debug(store: &mut Store, b: bool)
    ensures
        final(store)@ == (StoreView { debug: b, ..old(store)@ }),
{
    store.debug = b;
}

/// Whether tracing is on.
pub fn get_debug(store: &Store) -> (b: bool)
    ensures
        b == store@.debug,
{
    store.debug
}

/// Moves the indentation of the trace one level in.
pub fn shift(store: &mut Store)
    requires
        old(store)@.level < usize::MAX,
    ensures
        final(store)@ == (StoreView { level: old(store)@.level + 1, ..old(store)@ }),
{
    store.level = store.level + 1;
}

/// Moves the indentation of the trace one level out.
pub fn unshift(store: &mut Store)
    requires
        old(store)@.level > 0,
    ensures
        final(store)@ == (StoreView { level: (old(store)@.level - 1) as nat, ..old(store)@ }),
{
    store.level = store.level - 1;
}

/// The current indentation level of the trace.
pub fn get_level(store: &Store) -> (n: usize)
    ensures
        n == store@.level,
{
    store.level
}

} // verus!
