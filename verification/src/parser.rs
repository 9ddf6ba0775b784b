//! The line parser. A line is an assertion, `clause.`, or a question,
//! `?- term.`:
//!
//! ```text
//! clause    := predicate [ ":-" term ("," term)* ]
//! term      := predicate | variable
//! predicate := atom [ "(" term ("," term)* ")" ]
//! atom      := lowercase-letter identifier-char*
//! variable  := uppercase-letter identifier-char*
//! ```
//!
//! White space may stand between tokens. Reading gives every variable the
//! identifier 0; `parse_line` then gives the variables of the line fresh
//! identifiers, one for each name.

use vstd::prelude::*;
use crate::chars::{
    identifier_char, identifier_character, is_lowercase, is_space, is_uppercase, lowercase, space,
    uppercase,
};
use crate::rename::{clause_occurrences, rename_clause, rename_term, term_occurrences, Renamed};
use crate::store::{Store, StoreView};
use crate::term::{
    Atom, Clause, ClauseView, List, ListView, PredView, Predicate, Term, TermView, VarView,
    Variable,
};

verus! {

/// What a line asks for.
#[derive(Debug)]
pub enum Command {
    /// A clause to add to the knowledge base.
    Assertion(Clause),
    /// A goal to derive.
    Question(Term),
}

/// A command as a value.
pub enum CommandView {
    Assertion(ClauseView),
    Question(TermView),
}

impl View for Command {
    type V = CommandView;

    open spec fn view(&self) -> CommandView {
        match self {
            Command::Assertion(c) => CommandView::Assertion(c@),
            Command::Question(t) => CommandView::Question(t@),
        }
    }
}

#[derive(Debug, Clone, Copy, PartialEq, Eq, Structural)]
pub enum ParseError {
    /// The line is not in the grammar.
    Malformed,
    /// The line has more variables than fresh identifiers are left.
    IdsExhausted,
}

/// The first position at or after `pos` that holds no white space.
pub open spec fn skip_spaces(s: Seq<char>, pos: int) -> int
    decreases s.len() - pos,
{
    if 0 <= pos < s.len() && space(s[pos]) {
        skip_spaces(s, pos + 1)
    } else {
        pos
    }
}

/// The first position at or after `pos` that holds no identifier character.
pub open spec fn identifier_end(s: Seq<char>, pos: int) -> int
    decreases s.len() - pos,
{
    if 0 <= pos < s.len() && identifier_char(s[pos]) {
        identifier_end(s, pos + 1)
    } else {
        pos
    }
}

/// Skipping white space does not go back, stays within the line, and ends
/// at a character that is no white space.
pub proof fn lemma_skip_spaces(s: Seq<char>, pos: int)
    ensures
        pos <= skip_spaces(s, pos),
        pos <= s.len() ==> skip_spaces(s, pos) <= s.len(),
        0 <= skip_spaces(s, pos) < s.len() ==> !space(s[skip_spaces(s, pos)]),
    decreases s.len() - pos,
{
    if 0 <= pos < s.len() && space(s[pos]) {
        lemma_skip_spaces(s, pos + 1);
    }
}

/// An identifier does not end before it starts, ends within the line, ends
/// at a character that is not of an identifier, and holds only characters
/// that are.
pub proof fn lemma_identifier_end(s: Seq<char>, pos: int)
    ensures
        pos <= identifier_end(s, pos),
        pos <= s.len() ==> identifier_end(s, pos) <= s.len(),
        0 <= identifier_end(s, pos) < s.len() ==> !identifier_char(s[identifier_end(s, pos)]),
        forall|k: int| 0 <= pos <= k < identifier_end(s, pos) ==> identifier_char(s[k]),
    decreases s.len() - pos,
{
    if 0 <= pos < s.len() && identifier_char(s[pos]) {
        lemma_identifier_end(s, pos + 1);
    }
}

/// An atom: after white space a lowercase letter, then identifier
/// characters as far as they go.
pub open spec fn parse_atom(s: Seq<char>, pos: int) -> Option<(Seq<char>, int)> {
    let start = skip_spaces(s, pos);
    if 0 <= pos && start < s.len() && lowercase(s[start]) {
        let end = identifier_end(s, start + 1);
        Some((s.subrange(start, end), end))
    } else {
        None
    }
}

/// A variable: after white space an uppercase letter, then identifier
/// characters as far as they go.
pub open spec fn parse_variable(s: Seq<char>, pos: int) -> Option<(VarView, int)> {
    let start = skip_spaces(s, pos);
    if 0 <= pos && start < s.len() && !lowercase(s[start]) && uppercase(s[start]) {
        let end = identifier_end(s, start + 1);
        Some((VarView { name: s.subrange(start, end), id: 0 }, end))
    } else {
        None
    }
}

/// A term: a predicate where a lowercase letter comes first, else a
/// variable.
pub open spec fn parse_term(s: Seq<char>, pos: int) -> Option<(TermView, int)>
    decreases s.len() - pos, 2int,
{
    let start = skip_spaces(s, pos);
    if 0 <= pos && start < s.len() && lowercase(s[start]) {
        match parse_pred(s, pos) {
            Some((p, end)) => Some((TermView::Pred(p), end)),
            None => None,
        }
    } else {
        match parse_variable(s, pos) {
            Some((v, end)) => Some((TermView::Var(v), end)),
            None => None,
        }
    }
}

/// A predicate: an atom, and its arguments in round brackets if an opening
/// bracket follows.
pub open spec fn parse_pred(s: Seq<char>, pos: int) -> Option<(PredView, int)>
    decreases s.len() - pos, 1int,
{
    match parse_atom(s, pos) {
        None => None,
        Some((name, name_end)) => {
            let open = skip_spaces(s, name_end);
            if open < s.len() && s[open] == '(' {
                proof {
                    lemma_skip_spaces(s, pos);
                    lemma_identifier_end(s, skip_spaces(s, pos) + 1);
                    lemma_skip_spaces(s, name_end);
                }
                match parse_args(s, open + 1, ')') {
                    Some((args, end)) => Some((PredView { name, args }, end)),
                    None => None,
                }
            } else {
                Some((PredView { name, args: ListView::Nil }, open))
            }
        },
    }
}

/// One term and what follows it up to `close`. A term ends behind the
/// place where it starts, and within the line.
pub open spec fn parse_args(s: Seq<char>, pos: int, close: char) -> Option<(ListView, int)>
    decreases s.len() - pos, 4int,
{
    match parse_term(s, pos) {
        Some((first, after)) => if !(pos < after <= s.len()) {
            None
        } else {
            match parse_more(s, after, close) {
                Some((rest, end)) => Some((ListView::Cons(Box::new(first), Box::new(rest)), end)),
                None => None,
            }
        },
        None => None,
    }
}

/// What follows a term of a list: `close`, which ends the list, or a comma
/// and the terms after it.
pub open spec fn parse_more(s: Seq<char>, pos: int, close: char) -> Option<(ListView, int)>
    decreases s.len() - pos, 0int,
{
    let at = skip_spaces(s, pos);
    if !(0 <= at < s.len()) {
        None
    } else if s[at] == close {
        Some((ListView::Nil, at + 1))
    } else if s[at] == ',' {
        proof {
            lemma_skip_spaces(s, pos);
        }
        match parse_term(s, at + 1) {
            Some((arg, after)) => if !(at < after <= s.len()) {
                None
            } else {
                match parse_more(s, after, close) {
                    Some((rest, end)) => Some((ListView::Cons(Box::new(arg), Box::new(rest)), end)),
                    None => None,
                }
            },
            None => None,
        }
    } else {
        None
    }
}

/// A clause: a predicate, then either the period of a fact, or `:-` and
/// the conditions up to a period.
pub open spec fn parse_clause(s: Seq<char>, pos: int) -> Option<(ClauseView, int)> {
    match parse_pred(s, pos) {
        None => None,
        Some((head, after)) => {
            let at = skip_spaces(s, after);
            if at >= s.len() {
                None
            } else if s[at] == '.' {
                Some((ClauseView { head, body: ListView::Nil }, at + 1))
            } else if s[at] == ':' && at + 1 < s.len() && s[at + 1] == '-' {
                match parse_args(s, at + 2, '.') {
                    Some((body, end)) => Some((ClauseView { head, body }, end)),
                    None => None,
                }
            } else {
                None
            }
        },
    }
}

/// A line: `?-`, a term and a period, or a clause. What follows is not
/// looked at.
pub open spec fn parse_command(s: Seq<char>) -> Option<CommandView> {
    let at = skip_spaces(s, 0);
    if at >= s.len() {
        None
    } else if s[at] == '?' {
        if at + 1 < s.len() && s[at + 1] == '-' {
            match parse_term(s, at + 2) {
                Some((goal, after)) => {
                    let dot = skip_spaces(s, after);
                    if dot < s.len() && s[dot] == '.' {
                        Some(CommandView::Question(goal))
                    } else {
                        None
                    }
                },
                None => None,
            }
        } else {
            None
        }
    } else {
        match parse_clause(s, at) {
            Some((clause, _)) => Some(CommandView::Assertion(clause)),
            None => None,
        }
    }
}

/// What is read ends behind the place where it starts, and within the line.
pub proof fn lemma_parse_term_advances(s: Seq<char>, pos: int)
    ensures
        parse_term(s, pos) matches Some((_, end)) ==> pos < end <= s.len(),
    decreases s.len() - pos, 2int,
{
    lemma_skip_spaces(s, pos);
    lemma_identifier_end(s, skip_spaces(s, pos) + 1);
    let start = skip_spaces(s, pos);
    if 0 <= pos && start < s.len() && lowercase(s[start]) {
        lemma_parse_pred_advances(s, pos);
    }
}

/// A predicate that is read ends behind the place where it starts, and
/// within the line.
pub proof fn lemma_parse_pred_advances(s: Seq<char>, pos: int)
    ensures
        parse_pred(s, pos) matches Some((_, end)) ==> pos < end <= s.len(),
    decreases s.len() - pos, 1int,
{
    lemma_skip_spaces(s, pos);
    lemma_identifier_end(s, skip_spaces(s, pos) + 1);
    match parse_atom(s, pos) {
        None => {},
        Some((name, name_end)) => {
            lemma_skip_spaces(s, name_end);
            let open = skip_spaces(s, name_end);
            if open < s.len() && s[open] == '(' {
                lemma_parse_args_advances(s, open + 1, ')');
            }
        },
    }
}

/// A list that is read ends behind the place where it starts, and within
/// the line; so does its first term.
pub proof fn lemma_parse_args_advances(s: Seq<char>, pos: int, close: char)
    ensures
        parse_args(s, pos, close) matches Some((_, end)) ==> pos < end <= s.len(),
        parse_term(s, pos) matches Some((_, after)) ==> pos < after,
    decreases s.len() - pos, 4int,
{
    lemma_parse_term_advances(s, pos);
    match parse_term(s, pos) {
        Some((first, after)) => {
            lemma_parse_more_advances(s, after, close);
        },
        None => {},
    }
}

/// The rest of a list that is read ends behind the place where it starts,
/// and within the line.
pub proof fn lemma_parse_more_advances(s: Seq<char>, pos: int, close: char)
    ensures
        parse_more(s, pos, close) matches Some((_, end)) ==> pos < end <= s.len(),
    decreases s.len() - pos, 0int,
{
    lemma_skip_spaces(s, pos);
    let at = skip_spaces(s, pos);
    if 0 <= pos && at < s.len() && s[at] != close && s[at] == ',' {
        lemma_parse_term_advances(s, at + 1);
        match parse_term(s, at + 1) {
            Some((arg, after)) => {
                lemma_parse_more_advances(s, after, close);
            },
            None => {},
        }
    }
}

/// Skips white space.
pub fn consume_spaces(input: &[char], pos: usize) -> (r: usize)
    requires
        pos <= input@.len(),
    ensures
        r == skip_spaces(input@, pos as int),
        pos <= r <= input@.len(),
{
    let mut i: usize = pos;
    while i < input.len() && is_space(input[i])
        invariant
            pos <= i <= input@.len(),
            skip_spaces(input@, i as int) == skip_spaces(input@, pos as int),
        decreases input@.len() - i,
    {
        i += 1;
    }
    i
}

/// Reads the identifier that starts with the character at `pos`: that
/// character and the identifier characters after it.
pub fn identifier(input: &[char], pos: usize) -> (r: (String, usize))
    requires
        pos < input@.len(),
    ensures
        r.1 == identifier_end(input@, pos + 1),
        pos < r.1 <= input@.len(),
        r.0@ == input@.subrange(pos as int, r.1 as int),
{
    let mut name = String::new();
    name.push(input[pos]);
    let mut i: usize = pos + 1;
    assert(name@ =~= input@.subrange(pos as int, i as int));
    while i < input.len() && identifier_character(input[i])
        invariant
            pos < i <= input@.len(),
            identifier_end(input@, i as int) == identifier_end(input@, pos + 1),
            name@ == input@.subrange(pos as int, i as int),
        decreases input@.len() - i,
    {
        name.push(input[i]);
        i += 1;
        assert(name@ =~= input@.subrange(pos as int, i as int));
    }
    (name, i)
}

/// Reads an atom: after white space a lowercase letter and the identifier
/// characters that follow it.
pub fn atom(input: &[char], pos: usize) -> (r: Option<(Atom, usize)>)
    requires
        pos <= input@.len(),
    ensures
        match parse_atom(input@, pos as int) {
            Some((name, end)) => r matches Some((a, e)) && a@ == name && e == end && pos < e
                <= input@.len(),
            None => r is None,
        },
{
    let start = consume_spaces(input, pos);
    if start < input.len() && is_lowercase(input[start]) {
        let (name, end) = identifier(input, start);
        Some((Atom::new(name), end))
    } else {
        None
    }
}

/// Reads a variable: after white space an uppercase letter and the
/// identifier characters that follow it. Its identifier is 0.
pub fn variable(input: &[char], pos: usize) -> (r: Option<(Variable, usize)>)
    requires
        pos <= input@.len(),
    ensures
        match parse_variable(input@, pos as int) {
            Some((v, end)) => r matches Some((w, e)) && w@ == v && e == end && pos < e
                <= input@.len(),
            None => r is None,
        },
{
    let start = consume_spaces(input, pos);
    if start < input.len() && !is_lowercase(input[start]) && is_uppercase(input[start]) {
        let (name, end) = identifier(input, start);
        Some((Variable::new(name, 0), end))
    } else {
        None
    }
}

/// Reads a term: a predicate where a lowercase letter comes first, else a
/// variable.
pub fn term(input: &[char], pos: usize) -> (r: Option<(Term, usize)>)
    requires
        pos <= input@.len(),
    ensures
        match parse_term(input@, pos as int) {
            Some((t, end)) => r matches Some((u, e)) && u@ == t && e == end && pos < e
                <= input@.len(),
            None => r is None,
        },
    decreases input@.len() - pos, 2int,
{
    let start = consume_spaces(input, pos);
    if start < input.len() && is_lowercase(input[start]) {
        match predicate(input, pos) {
            Some((p, end)) => Some((Term::Pred(p), end)),
            None => None,
        }
    } else {
        match variable(input, pos) {
            Some((v, end)) => Some((Term::Var(v), end)),
            None => None,
        }
    }
}

/// Reads a predicate: an atom, and its arguments if an opening bracket
/// follows.
pub fn predicate(input: &[char], pos: usize) -> (r: Option<(Predicate, usize)>)
    requires
        pos <= input@.len(),
    ensures
        match parse_pred(input@, pos as int) {
            Some((p, end)) => r matches Some((q, e)) && q@ == p && e == end && pos < e
                <= input@.len(),
            None => r is None,
        },
    decreases input@.len() - pos, 1int,
{
    match atom(input, pos) {
        None => None,
        Some((name, name_end)) => {
            let open = consume_spaces(input, name_end);
            if open < input.len() && input[open] == '(' {
                match arguments(input, open + 1, ')') {
                    Some((args, end)) => Some((Predicate { name, arguments: args }, end)),
                    None => None,
                }
            } else {
                Some((Predicate { name, arguments: List::Nil }, open))
            }
        },
    }
}

/// Reads a list of one or more terms, separated by commas and ended by
/// `end`.
pub fn arguments(input: &[char], pos: usize, end: char) -> (r: Option<(List, usize)>)
    requires
        pos <= input@.len(),
    ensures
        match parse_args(input@, pos as int, end) {
            Some((l, stop)) => r matches Some((m, e)) && m@ == l && e == stop && pos < e
                <= input@.len(),
            None => r is None,
        },
    decreases input@.len() - pos, 4int,
{
    match term(input, pos) {
        Some((first, after)) => match arguments_impl(input, after, end) {
            Some((rest, stop)) => Some((List::Cons(Box::new(first), Box::new(rest)), stop)),
            None => None,
        },
        None => None,
    }
}

/// Reads what follows a term of a list: `end`, or a comma and more terms.
pub fn arguments_impl(input: &[char], pos: usize, end: char) -> (r: Option<(List, usize)>)
    requires
        pos <= input@.len(),
    ensures
        match parse_more(input@, pos as int, end) {
            Some((l, stop)) => r matches Some((m, e)) && m@ == l && e == stop && pos < e
                <= input@.len(),
            None => r is None,
        },
    decreases input@.len() - pos, 0int,
{
    let at = consume_spaces(input, pos);
    if at >= input.len() {
        None
    } else if input[at] == end {
        Some((List::Nil, at + 1))
    } else if input[at] == ',' {
        match term(input, at + 1) {
            Some((arg, after)) => match arguments_impl(input, after, end) {
                Some((rest, stop)) => Some((List::Cons(Box::new(arg), Box::new(rest)), stop)),
                None => None,
            },
            None => None,
        }
    } else {
        None
    }
}

/// Reads a clause: a predicate, then the period of a fact, or `:-` and the
/// conditions up to a period.
pub fn clause(input: &[char], pos: usize) -> (r: Option<(Clause, usize)>)
    requires
        pos <= input@.len(),
    ensures
        match parse_clause(input@, pos as int) {
            Some((c, end)) => r matches Some((d, e)) && d@ == c && e == end && pos < e
                <= input@.len(),
            None => r is None,
        },
{
    match predicate(input, pos) {
        None => None,
        Some((result, after)) => {
            let at = consume_spaces(input, after);
            if at >= input.len() {
                None
            } else if input[at] == '.' {
                Some((Clause { result, conditions: List::Nil }, at + 1))
            } else if input[at] == ':' && at + 1 < input.len() && input[at + 1] == '-' {
                match arguments(input, at + 2, '.') {
                    Some((conditions, end)) => Some((Clause { result, conditions }, end)),
                    None => None,
                }
            } else {
                None
            }
        },
    }
}

/// Reads a line without numbering its variables.
pub fn command(input: &[char]) -> (r: Option<Command>)
    ensures
        match parse_command(input@) {
            Some(c) => r matches Some(d) && d@ == c,
            None => r is None,
        },
{
    let at = consume_spaces(input, 0);
    if at >= input.len() {
        None
    } else if input[at] == '?' {
        if at + 1 < input.len() && input[at + 1] == '-' {
            match term(input, at + 2) {
                Some((goal, after)) => {
                    let dot = consume_spaces(input, after);
                    if dot < input.len() && input[dot] == '.' {
                        Some(Command::Question(goal))
                    } else {
                        None
                    }
                },
                None => None,
            }
        } else {
            None
        }
    } else {
        match clause(input, at) {
            Some((c, _)) => Some(Command::Assertion(c)),
            None => None,
        }
    }
}

/// The number of variable occurrences in a command.
pub open spec fn command_occurrences(c: CommandView) -> nat {
    match c {
        CommandView::Assertion(clause) => clause_occurrences(clause),
        CommandView::Question(goal) => term_occurrences(goal),
    }
}

/// The command with its variables renamed from an empty dictionary: every
/// name gets one fresh identifier, in the order of first occurrence.
pub open spec fn number_command(c: CommandView, next: nat) -> Renamed<CommandView> {
    match c {
        CommandView::Assertion(clause) => {
            let r = rename_clause(clause, Map::empty(), next);
            Renamed { value: CommandView::Assertion(r.value), dict: r.dict, next: r.next }
        },
        CommandView::Question(goal) => {
            let r = rename_term(goal, Map::empty(), next);
            Renamed { value: CommandView::Question(r.value), dict: r.dict, next: r.next }
        },
    }
}

/// Reads a line and gives its variables fresh identifiers from `store`.
pub fn parse_line(input: &[char], store: &mut Store) -> (r: Result<Command, ParseError>)
    ensures
        match parse_command(input@) {
            None => r matches Err(e) && e == ParseError::Malformed && final(store)@ == old(store)@,
            Some(c) => if old(store)@.next + command_occurrences(c) > usize::MAX {
                r matches Err(e) && e == ParseError::IdsExhausted && final(store)@ == old(store)@
            } else {
                r matches Ok(d) && d@ == number_command(c, old(store)@.next).value && final(store)@
                    == (StoreView { next: number_command(c, old(store)@.next).next, ..old(store)@ })
            },
        },
{
    match command(input) {
        None => Err(ParseError::Malformed),
        Some(Command::Assertion(c)) => match c.renamed_apart(store) {
            Some(numbered) => Ok(Command::Assertion(numbered)),
            None => Err(ParseError::IdsExhausted),
        },
        Some(Command::Question(q)) => match q.renamed_apart(store) {
            Some(numbered) => Ok(Command::Question(numbered)),
            None => Err(ParseError::IdsExhausted),
        },
    }
}

} // verus!
