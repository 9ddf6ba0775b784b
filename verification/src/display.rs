//! The text of terms and clauses, in the form that the parser reads.
//!
//! A variable is written as its name, without its identifier; a predicate
//! without arguments as its bare name; the elements of a list with `, `
//! between them; a clause as a line with its closing period.

use vstd::prelude::*;
use vstd::string::StringExecFns;
use crate::term::{Atom, Clause, ClauseView, List, ListView, PredView, Predicate, Term, TermView, Variable};

verus! {

/// The text of a term: a variable's name, a predicate's text, or the text
/// of a list's elements.
pub open spec fn show_term(t: TermView) -> Seq<char>
    decreases t,
{
    match t {
        TermView::Var(v) => v.name,
        TermView::Pred(p) => show_pred(p),
        TermView::List(l) => show_list(l),
    }
}

/// The text of a predicate: its name, followed by its arguments in round
/// brackets if it has any.
pub open spec fn show_pred(p: PredView) -> Seq<char>
    decreases p,
{
    if p.args is Nil {
        p.name
    } else {
        p.name + seq!['('] + show_list(p.args) + seq![')']
    }
}

/// The text of the elements of a list, with a comma and a blank between
/// one and the next.
pub open spec fn show_list(l: ListView) -> Seq<char>
    decreases l,
{
    match l {
        ListView::Nil => Seq::empty(),
        ListView::Cons(head, tail) => if *tail is Nil {
            show_term(*head)
        } else {
            show_term(*head) + seq![',', ' '] + show_list(*tail)
        },
    }
}

/// The text of a clause as a line: the head, then ` :- ` and the body if the
/// body is not empty, then a period.
pub open spec fn show_clause(c: ClauseView) -> Seq<char> {
    if c.body is Nil {
        show_pred(c.head) + seq!['.']
    } else {
        show_pred(c.head) + seq![' ', ':', '-', ' '] + show_list(c.body) + seq!['.']
    }
}

impl Atom {
    /// The atom's name.
    pub fn render(&self) -> (r: String)
        ensures
            r@ == self@,
    {
        self.name.clone()
    }
}

impl Variable {
    /// The variable's name.
    pub fn render(&self) -> (r: String)
        ensures
            r@ == self@.name,
    {
        self.name.clone()
    }
}

impl Term {
    /// The text of the term.
    pub fn render(&self) -> (r: String)
        ensures
            r@ == show_term(self@),
    {
        let mut out = String::new();
        self.write(&mut out);
        assert(out@ =~= show_term(self@));
        out
    }

    /// Appends the text of the term to `out`.
    pub fn write(&self, out: &mut String)
        ensures
            final(out)@ == old(out)@ + show_term(self@),
        decreases self,
    {
        match self {
            Term::Var(v) => out.append(v.name.as_str()),
            Term::Pred(p) => p.write(out),
            Term::List(l) => l.write(out),
        }
    }
}

impl Predicate {
    /// The text of the predicate.
    pub fn render(&self) -> (r: String)
        ensures
            r@ == show_pred(self@),
    {
        let mut out = String::new();
        self.write(&mut out);
        assert(out@ =~= show_pred(self@));
        out
    }

    /// Appends the text of the predicate to `out`.
    pub fn write(&self, out: &mut String)
        ensures
            final(out)@ == old(out)@ + show_pred(self@),
        decreases self,
    {
        out.append(self.name.name.as_str());
        match &self.arguments {
            List::Nil => {},
            List::Cons(_, _) => {
                out.push('(');
                self.arguments.write(out);
                out.push(')');
                assert(out@ =~= old(out)@ + show_pred(self@));
            },
        }
    }
}

impl List {
    /// The text of the elements, with `, ` between them.
    pub fn render(&self) -> (r: String)
        ensures
            r@ == show_list(self@),
    {
        let mut out = String::new();
        self.write(&mut out);
        assert(out@ =~= show_list(self@));
        out
    }

    /// Appends the text of the elements to `out`, with `, ` between them.
    pub fn write(&self, out: &mut String)
        ensures
            final(out)@ == old(out)@ + show_list(self@),
        decreases self,
    {
        match self {
            List::Nil => {
                assert(out@ =~= old(out)@ + show_list(self@));
            },
            List::Cons(head, tail) => {
                head.write(out);
                match &**tail {
                    List::Nil => {},
                    List::Cons(_, _) => {
                        out.push(',');
                        out.push(' ');
                        tail.write(out);
                        assert(out@ =~= old(out)@ + show_list(self@));
                    },
                }
            },
        }
    }
}

impl Clause {
    /// The text of the clause as a line, with its closing period.
    pub fn render(&self) -> (r: String)
        ensures
            r@ == show_clause(self@),
    {
        let mut out = String::new();
        self.result.write(&mut out);
        match &self.conditions {
            List::Nil => {},
            List::Cons(_, _) => {
                out.push(' ');
                out.push(':');
                out.push('-');
                out.push(' ');
                self.conditions.write(&mut out);
            },
        }
        out.push('.');
        assert(out@ =~= show_clause(self@));
        out
    }
}

} // verus!
