//! The term model: atoms, variables, predicates, lists, clauses, and the
//! mathematical values that contracts speak of.

use vstd::prelude::*;
use vstd::std_specs::cmp::PartialEqSpecImpl;

verus! {

/// An immutable symbolic name. Two atoms are equal when their names are.
#[derive(Debug)]
pub struct Atom {
    pub name: String,
}

/// A named placeholder. Its identity is the pair of name and identifier;
/// what it is bound to is kept by the store, not by the variable.
#[derive(Debug, Hash)]
pub struct Variable {
    pub name: String,
    pub id: usize,
}

/// An applied symbol `name(arguments)`; with no arguments, a constant.
#[derive(Debug)]
pub struct Predicate {
    pub name: Atom,
    pub arguments: List,
}

/// `result :- conditions`; a fact where `conditions` is empty.
#[derive(Debug)]
pub struct Clause {
    pub result: Predicate,
    pub conditions: List,
}

/// A finite sequence of terms.
#[derive(Debug)]
pub enum List {
    Nil,
    Cons(Box<Term>, Box<List>),
}

/// A term: a variable, a predicate, or a list.
#[derive(Debug)]
pub enum Term {
    Var(Variable),
    Pred(Predicate),
    List(List),
}

/// The identity of a variable.
pub struct VarView {
    pub name: Seq<char>,
    pub id: nat,
}

/// A predicate as a value: its name and its arguments.
pub struct PredView {
    pub name: Seq<char>,
    pub args: ListView,
}

/// A clause as a value: its head and its body.
pub struct ClauseView {
    pub head: PredView,
    pub body: ListView,
}

/// A list as a value.
pub enum ListView {
    Nil,
    Cons(Box<TermView>, Box<ListView>),
}

/// A term as a value.
pub enum TermView {
    Var(VarView),
    Pred(PredView),
    List(ListView),
}

/// The value of a term.
pub open spec fn term_view(t: Term) -> TermView
    decreases t,
{
    match t {
        Term::Var(v) => TermView::Var(v@),
        Term::Pred(p) => TermView::Pred(PredView { name: p.name@, args: list_view(p.arguments) }),
        Term::List(l) => TermView::List(list_view(l)),
    }
}

/// The value of a list.
pub open spec fn list_view(l: List) -> ListView
    decreases l,
{
    match l {
        List::Nil => ListView::Nil,
        List::Cons(head, tail) => ListView::Cons(
            Box::new(term_view(*head)),
            Box::new(list_view(*tail)),
        ),
    }
}

impl View for Atom {
    type V = Seq<char>;

    open spec fn view(&self) -> Seq<char> {
        self.name@
    }
}

impl View for Variable {
    type V = VarView;

    open spec fn view(&self) -> VarView {
        VarView { name: self.name@, id: self.id as nat }
    }
}

impl View for Term {
    type V = TermView;

    open spec fn view(&self) -> TermView {
        term_view(*self)
    }
}

impl View for List {
    type V = ListView;

    open spec fn view(&self) -> ListView {
        list_view(*self)
    }
}

impl View for Predicate {
    type V = PredView;

    open spec fn view(&self) -> PredView {
        PredView { name: self.name@, args: self.arguments@ }
    }
}

impl View for Clause {
    type V = ClauseView;

    open spec fn view(&self) -> ClauseView {
        ClauseView { head: self.result@, body: self.conditions@ }
    }
}

/// The number of elements of a list.
pub open spec fn list_len(l: ListView) -> nat
    decreases l,
{
    match l {
        ListView::Nil => 0,
        ListView::Cons(_, tail) => 1 + list_len(*tail),
    }
}

/// The elements of a list, in order.
pub open spec fn list_seq(l: ListView) -> Seq<TermView>
    decreases l,
{
    match l {
        ListView::Nil => Seq::empty(),
        ListView::Cons(head, tail) => seq![*head] + list_seq(*tail),
    }
}

/// What a sequence of borrowed terms holds.
pub open spec fn terms_view(ts: Seq<&Term>) -> Seq<TermView> {
    Seq::new(ts.len(), |i: int| ts[i]@)
}

/// Whether the variable `v` occurs in `t`.
pub open spec fn occurs_in_term(v: VarView, t: TermView) -> bool
    decreases t,
{
    match t {
        TermView::Var(w) => w == v,
        TermView::Pred(p) => occurs_in_list(v, p.args),
        TermView::List(l) => occurs_in_list(v, l),
    }
}

/// Whether the variable `v` occurs in an element of `l`.
pub open spec fn occurs_in_list(v: VarView, l: ListView) -> bool
    decreases l,
{
    match l {
        ListView::Nil => false,
        ListView::Cons(head, tail) => occurs_in_term(v, *head) || occurs_in_list(v, *tail),
    }
}

/// Whether the variable `v` occurs in the head or the body of `c`.
pub open spec fn occurs_in_clause(v: VarView, c: ClauseView) -> bool {
    occurs_in_list(v, c.head.args) || occurs_in_list(v, c.body)
}

/// The variables of a term in the order in which they first occur, each
/// once, after those that `acc` already holds.
pub open spec fn collect_term(t: TermView, acc: Seq<VarView>) -> Seq<VarView>
    decreases t,
{
    match t {
        TermView::Var(v) => if acc.contains(v) {
            acc
        } else {
            acc.push(v)
        },
        TermView::Pred(p) => collect_list(p.args, acc),
        TermView::List(l) => collect_list(l, acc),
    }
}

/// The variables of the elements of a list in the order in which they
/// first occur, each once, after those that `acc` already holds.
pub open spec fn collect_list(l: ListView, acc: Seq<VarView>) -> Seq<VarView>
    decreases l,
{
    match l {
        ListView::Nil => acc,
        ListView::Cons(head, tail) => collect_list(*tail, collect_term(*head, acc)),
    }
}

/// The variables of a term: each once, in the order of first occurrence.
pub open spec fn term_variables(t: TermView) -> Seq<VarView> {
    collect_term(t, Seq::empty())
}

/// The variables of the elements of a list: each once, in the order of
/// first occurrence.
pub open spec fn list_variables(l: ListView) -> Seq<VarView> {
    collect_list(l, Seq::empty())
}

/// The identities of a sequence of variables.
pub open spec fn vars_view(vs: Seq<Variable>) -> Seq<VarView> {
    Seq::new(vs.len(), |i: int| vs[i]@)
}

/// Collecting keeps what was collected, adds exactly the variables that
/// occur, and adds none twice.
pub proof fn lemma_collect_term(t: TermView, acc: Seq<VarView>)
    requires
        acc.no_duplicates(),
    ensures
        collect_term(t, acc).no_duplicates(),
        forall|v: VarView| #[trigger]
            collect_term(t, acc).contains(v) <==> acc.contains(v) || occurs_in_term(v, t),
    decreases t,
{
    match t {
        TermView::Var(w) => {
            if !acc.contains(w) {
                let after = acc.push(w);
                assert(after.no_duplicates()) by {
                    assert forall|i: int, j: int| 0 <= i < after.len() && 0 <= j < after.len() && i
                        != j implies after[i] != after[j] by {
                        if i < acc.len() {
                            assert(acc.contains(acc[i]));
                        }
                        if j < acc.len() {
                            assert(acc.contains(acc[j]));
                        }
                    }
                }
                assert forall|v: VarView| #[trigger]
                    after.contains(v) <==> acc.contains(v) || v == w by {
                    if after.contains(v) {
                        let i = choose|i: int| 0 <= i < after.len() && after[i] == v;
                        if i < acc.len() {
                            assert(acc[i] == v);
                        }
                    }
                    if acc.contains(v) {
                        let i = choose|i: int| 0 <= i < acc.len() && acc[i] == v;
                        assert(after[i] == v);
                    }
                    if v == w {
                        assert(after[acc.len() as int] == v);
                    }
                }
            }
        },
        TermView::Pred(p) => {
            lemma_collect_list(p.args, acc);
        },
        TermView::List(l) => {
            lemma_collect_list(l, acc);
        },
    }
}

/// Collecting from a list keeps what was collected, adds exactly the
/// variables that occur in it, and adds none twice.
pub proof fn lemma_collect_list(l: ListView, acc: Seq<VarView>)
    requires
        acc.no_duplicates(),
    ensures
        collect_list(l, acc).no_duplicates(),
        forall|v: VarView| #[trigger]
            collect_list(l, acc).contains(v) <==> acc.contains(v) || occurs_in_list(v, l),
    decreases l,
{
    match l {
        ListView::Nil => {},
        ListView::Cons(head, tail) => {
            lemma_collect_term(*head, acc);
            lemma_collect_list(*tail, collect_term(*head, acc));
            assert forall|v: VarView| #[trigger]
                collect_list(l, acc).contains(v) <==> acc.contains(v) || occurs_in_list(v, l) by {
                assert(collect_term(*head, acc).contains(v) <==> acc.contains(v) || occurs_in_term(
                    v,
                    *head,
                ));
            }
        },
    }
}

/// The variables of a term are the variables that occur in it, each once.
pub proof fn lemma_term_variables(t: TermView)
    ensures
        term_variables(t).no_duplicates(),
        forall|v: VarView| #[trigger] term_variables(t).contains(v) <==> occurs_in_term(v, t),
{
    lemma_collect_term(t, Seq::empty());
    assert forall|v: VarView| #[trigger] term_variables(t).contains(v) <==> occurs_in_term(
        v,
        t,
    ) by {
        assert(!Seq::<VarView>::empty().contains(v));
    }
}

/// Whether `acc` holds the variable `v`.
fn holds(acc: &Vec<Variable>, v: &Variable) -> (r: bool)
    ensures
        r == vars_view(acc@).contains(v@),
{
    let mut i: usize = 0;
    while i < acc.len()
        invariant
            i <= acc.len(),
            forall|k: int| 0 <= k < i ==> vars_view(acc@)[k] != v@,
        decreases acc.len() - i,
    {
        if acc[i] == *v {
            assert(vars_view(acc@)[i as int] == v@);
            return true;
        }
        i += 1;
    }
    false
}

impl Atom {
    /// The atom of the given name.
    pub fn new(name: String) -> (r: Self)
        ensures
            r@ == name@,
    {
        Atom { name }
    }
}

impl Variable {
    /// A variable with the given name and identifier.
    pub fn new(name: String, id: usize) -> (r: Self)
        ensures
            r@ == (VarView { name: name@, id: id as nat }),
    {
        Variable { name, id }
    }
}

impl Term {
    /// The variables of the term, each once, in the order of first
    /// occurrence.
    pub fn variables(&self) -> (r: Vec<Variable>)
        ensures
            vars_view(r@) == term_variables(self@),
    {
        let mut acc: Vec<Variable> = Vec::new();
        assert(vars_view(acc@) =~= Seq::empty());
        self.collect(&mut acc);
        acc
    }

    /// Adds to `acc` the variables of the term that it does not hold yet.
    pub fn collect(&self, acc: &mut Vec<Variable>)
        ensures
            vars_view(final(acc)@) == collect_term(self@, vars_view(old(acc)@)),
        decreases self,
    {
        match self {
            Term::Var(v) => {
                if !holds(acc, v) {
                    acc.push(v.clone());
                    assert(vars_view(acc@) =~= vars_view(old(acc)@).push(v@));
                }
            },
            Term::Pred(p) => p.arguments.collect(acc),
            Term::List(l) => l.collect(acc),
        }
    }
}

impl List {
    /// The elements of the list, in order.
    pub fn iter(&self) -> (r: Vec<&Term>)
        ensures
            terms_view(r@) == list_seq(self@),
    {
        let mut out: Vec<&Term> = Vec::new();
        let mut cur: &List = self;
        assert(terms_view(out@) + list_seq(cur@) =~= list_seq(self@));
        loop
            invariant
                terms_view(out@) + list_seq(cur@) == list_seq(self@),
            decreases list_len(cur@),
        {
            match cur {
                List::Nil => {
                    assert(terms_view(out@) =~= list_seq(self@));
                    return out;
                },
                List::Cons(head, tail) => {
                    let ghost before = terms_view(out@);
                    out.push(&**head);
                    assert(terms_view(out@) =~= before.push(head@));
                    assert(before.push(head@) + list_seq(tail@) =~= before + list_seq(cur@));
                    cur = &**tail;
                },
            }
        }
    }

    /// The variables of the elements, each once, in the order of first
    /// occurrence.
    pub fn variables(&self) -> (r: Vec<Variable>)
        ensures
            vars_view(r@) == list_variables(self@),
    {
        let mut acc: Vec<Variable> = Vec::new();
        assert(vars_view(acc@) =~= Seq::empty());
        self.collect(&mut acc);
        acc
    }

    /// Adds to `acc` the variables of the elements that it does not hold yet.
    pub fn collect(&self, acc: &mut Vec<Variable>)
        ensures
            vars_view(final(acc)@) == collect_list(self@, vars_view(old(acc)@)),
        decreases self,
    {
        match self {
            List::Nil => {},
            List::Cons(head, tail) => {
                head.collect(acc);
                tail.collect(acc);
            },
        }
    }
}

impl Predicate {
    /// The variables of the arguments, each once, in the order of first
    /// occurrence.
    pub fn variables(&self) -> (r: Vec<Variable>)
        ensures
            vars_view(r@) == list_variables(self@.args),
    {
        self.arguments.variables()
    }
}

impl Clone for Atom {
    fn clone(&self) -> (r: Self)
        ensures
            r@ == self@,
    {
        Atom { name: self.name.clone() }
    }
}

impl PartialEq for Atom {
    fn eq(&self, other: &Self) -> (r: bool) {
        self.name == other.name
    }
}

impl Eq for Atom {

}

impl PartialEqSpecImpl for Atom {
    open spec fn obeys_eq_spec() -> bool {
        true
    }

    open spec fn eq_spec(&self, other: &Self) -> bool {
        self@ == other@
    }
}

impl Clone for Variable {
    fn clone(&self) -> (r: Self)
        ensures
            r@ == self@,
    {
        Variable { name: self.name.clone(), id: self.id }
    }
}

impl PartialEq for Variable {
    fn eq(&self, other: &Self) -> (r: bool) {
        self.name == other.name && self.id == other.id
    }
}

impl Eq for Variable {

}

impl PartialEqSpecImpl for Variable {
    open spec fn obeys_eq_spec() -> bool {
        true
    }

    open spec fn eq_spec(&self, other: &Self) -> bool {
        self@ == other@
    }
}

impl Clone for Term {
    fn clone(&self) -> (r: Self)
        ensures
            r@ == self@,
        decreases self,
    {
        match self {
            Term::Var(v) => Term::Var(v.clone()),
            Term::Pred(p) => Term::Pred(p.clone()),
            Term::List(l) => Term::List(l.clone()),
        }
    }
}

impl Clone for List {
    fn clone(&self) -> (r: Self)
        ensures
            r@ == self@,
        decreases self,
    {
        match self {
            List::Nil => List::Nil,
            List::Cons(head, tail) => {
                let h: Term = (&**head).clone();
                let t: List = (&**tail).clone();
                List::Cons(Box::new(h), Box::new(t))
            },
        }
    }
}

impl Clone for Predicate {
    fn clone(&self) -> (r: Self)
        ensures
            r@ == self@,
        decreases self,
    {
        Predicate { name: self.name.clone(), arguments: self.arguments.clone() }
    }
}

impl Clone for Clause {
    fn clone(&self) -> (r: Self)
        ensures
            r@ == self@,
    {
        Clause { result: self.result.clone(), conditions: self.conditions.clone() }
    }
}

} // verus!
