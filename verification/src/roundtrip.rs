//! Reading back what was written: the text of a clause, read as a line,
//! gives the clause again, up to the identifiers of its variables.

use vstd::prelude::*;
use crate::chars::{identifier_char, lowercase, space, uppercase};
use crate::display::{show_clause, show_list, show_pred, show_term};
use crate::parser::{
    identifier_end, lemma_skip_spaces, parse_args, parse_atom, parse_clause, parse_command,
    parse_more, parse_pred, parse_term, parse_variable, skip_spaces, CommandView,
};
use crate::rename::{
    covers_clause, covers_list, covers_term, lemma_rename_clause_shares,
    lemma_substitute_list_occurs, rename_clause, substitute_clause, substitute_list,
    substitute_term,
};
use crate::term::{
    occurs_in_clause, occurs_in_list, occurs_in_term, ClauseView, ListView, PredView, TermView,
    VarView,
};

verus! {

/// A name that the parser reads as an atom.
pub open spec fn atom_name(n: Seq<char>) -> bool {
    &&& n.len() > 0
    &&& lowercase(n[0])
    &&& !space(n[0])
    &&& forall|i: int| 1 <= i < n.len() ==> identifier_char(#[trigger] n[i])
}

/// A name that the parser reads as a variable.
pub open spec fn variable_name(n: Seq<char>) -> bool {
    &&& n.len() > 0
    &&& !lowercase(n[0])
    &&& uppercase(n[0])
    &&& !space(n[0])
    &&& forall|i: int| 1 <= i < n.len() ==> identifier_char(#[trigger] n[i])
}

/// A term of the grammar: its names are names of the grammar, and it holds
/// no list but the arguments of its predicates.
pub open spec fn readable_term(t: TermView) -> bool
    decreases t,
{
    match t {
        TermView::Var(v) => variable_name(v.name),
        TermView::Pred(p) => readable_pred(p),
        TermView::List(_) => false,
    }
}

/// A predicate of the grammar: its name is an atom's, its arguments are
/// terms of the grammar.
pub open spec fn readable_pred(p: PredView) -> bool
    decreases p,
{
    atom_name(p.name) && readable_list(p.args)
}

/// A list of terms of the grammar.
pub open spec fn readable_list(l: ListView) -> bool
    decreases l,
{
    match l {
        ListView::Nil => true,
        ListView::Cons(head, tail) => readable_term(*head) && readable_list(*tail),
    }
}

/// A clause of the grammar.
pub open spec fn readable_clause(c: ClauseView) -> bool {
    readable_pred(c.head) && readable_list(c.body)
}

/// The term with the identifier of every variable set to 0.
pub open spec fn bare_term(t: TermView) -> TermView
    decreases t,
{
    match t {
        TermView::Var(v) => TermView::Var(VarView { name: v.name, id: 0 }),
        TermView::Pred(p) => TermView::Pred(bare_pred(p)),
        TermView::List(l) => TermView::List(bare_list(l)),
    }
}

/// The predicate with the identifier of every variable set to 0.
pub open spec fn bare_pred(p: PredView) -> PredView
    decreases p,
{
    PredView { name: p.name, args: bare_list(p.args) }
}

/// The list with the identifier of every variable set to 0.
pub open spec fn bare_list(l: ListView) -> ListView
    decreases l,
{
    match l {
        ListView::Nil => ListView::Nil,
        ListView::Cons(head, tail) => ListView::Cons(
            Box::new(bare_term(*head)),
            Box::new(bare_list(*tail)),
        ),
    }
}

/// The clause with the identifier of every variable set to 0.
pub open spec fn bare_clause(c: ClauseView) -> ClauseView {
    ClauseView { head: bare_pred(c.head), body: bare_list(c.body) }
}

/// Whether a term that ends before `p` ends there for the parser too: no
/// identifier character follows, and after white space no opening bracket.
pub open spec fn ends_term(s: Seq<char>, p: int) -> bool {
    &&& p == s.len() || !identifier_char(s[p])
    &&& skip_spaces(s, p) >= s.len() || s[skip_spaces(s, p)] != '('
}

/// The marks of the grammar are no identifier characters, and none but the
/// blank is white space.
proof fn lemma_punctuation()
    ensures
        !identifier_char('(') && !space('('),
        !identifier_char(')') && !space(')'),
        !identifier_char(',') && !space(','),
        !identifier_char('.') && !space('.'),
        !identifier_char(':') && !space(':'),
        !identifier_char(' ') && space(' '),
        !lowercase('?'),
{
}

/// A run of identifier characters that ends at `to` is read up to `to`.
proof fn lemma_identifier_run(s: Seq<char>, from: int, to: int)
    requires
        0 <= from <= to <= s.len(),
        forall|k: int| from <= k < to ==> identifier_char(#[trigger] s[k]),
        to == s.len() || !identifier_char(s[to]),
    ensures
        identifier_end(s, from) == to,
    decreases to - from,
{
    if from < to {
        assert(identifier_char(s[from]));
        lemma_identifier_run(s, from + 1, to);
    }
}

/// Where no white space stands, none is skipped.
proof fn lemma_no_space(s: Seq<char>, p: int)
    requires
        0 <= p,
        p >= s.len() || !space(s[p]),
    ensures
        skip_spaces(s, p) == p,
{
}

/// One blank before a character that is no white space is skipped.
proof fn lemma_one_space(s: Seq<char>, p: int)
    requires
        0 <= p,
        p + 1 < s.len(),
        s[p] == ' ',
        !space(s[p + 1]),
    ensures
        skip_spaces(s, p) == p + 1,
{
    lemma_punctuation();
    lemma_no_space(s, p + 1);
}

/// Where `text` stands in `s` at `start`, a part of `text` stands in `s`
/// at its place.
proof fn lemma_part(s: Seq<char>, start: int, text: Seq<char>, a: int, b: int)
    requires
        0 <= start,
        start + text.len() <= s.len(),
        s.subrange(start, start + text.len()) == text,
        0 <= a <= b <= text.len(),
    ensures
        s.subrange(start + a, start + b) == text.subrange(a, b),
        forall|i: int| 0 <= i < text.len() ==> s[start + i] == #[trigger] text[i],
{
    assert forall|i: int| 0 <= i < text.len() implies s[start + i] == #[trigger] text[i] by {
        assert(s.subrange(start, start + text.len())[i] == s[start + i]);
    }
    assert(s.subrange(start + a, start + b) =~= text.subrange(a, b));
}

/// The text of a readable term starts with the first character of its name.
proof fn lemma_show_term_first(t: TermView)
    requires
        readable_term(t),
    ensures
        show_term(t).len() > 0,
        !space(show_term(t)[0]),
        lowercase(show_term(t)[0]) <==> t is Pred,
        t is Var ==> uppercase(show_term(t)[0]),
{
    match t {
        TermView::Pred(p) => {
            lemma_show_pred_first(p);
        },
        _ => {},
    }
}

/// The text of a readable predicate starts with its name.
proof fn lemma_show_pred_first(p: PredView)
    requires
        readable_pred(p),
    ensures
        show_pred(p).len() >= p.name.len() > 0,
        show_pred(p).subrange(0, p.name.len() as int) == p.name,
        show_pred(p)[0] == p.name[0],
{
    if p.args is Nil {
        assert(show_pred(p).subrange(0, p.name.len() as int) =~= p.name);
    } else {
        let text = p.name + seq!['('] + show_list(p.args) + seq![')'];
        assert(text.subrange(0, p.name.len() as int) =~= p.name);
        assert(text[0] == p.name[0]);
    }
}

/// The text of a readable list that is not empty starts with a character
/// that is no white space.
proof fn lemma_show_list_first(l: ListView)
    requires
        readable_list(l),
        l is Cons,
    ensures
        show_list(l).len() > 0,
        !space(show_list(l)[0]),
{
    match l {
        ListView::Cons(head, tail) => {
            lemma_show_term_first(*head);
            if !(*tail is Nil) {
                let text = show_term(*head) + seq![',', ' '] + show_list(*tail);
                assert(text[0] == show_term(*head)[0]);
            }
        },
        _ => {},
    }
}

/// The name that stands at `start` is read as far as it goes.
proof fn lemma_read_name(s: Seq<char>, start: int, name: Seq<char>)
    requires
        0 <= start,
        name.len() > 0,
        start + name.len() <= s.len(),
        s.subrange(start, start + name.len()) == name,
        forall|i: int| 1 <= i < name.len() ==> identifier_char(#[trigger] name[i]),
        start + name.len() == s.len() || !identifier_char(s[start + name.len()]),
    ensures
        identifier_end(s, start + 1) == start + name.len(),
{
    lemma_part(s, start, name, 0, name.len() as int);
    assert forall|k: int| start + 1 <= k < start + name.len() implies identifier_char(
        #[trigger] s[k],
    ) by {
        assert(s[start + (k - start)] == name[k - start]);
    }
    lemma_identifier_run(s, start + 1, start + name.len());
}

/// The text of a readable term, standing in `s` where the parser starts
/// to read after white space, and ended there for the parser, is read as
/// the term with its identifiers set to 0.
pub proof fn lemma_read_term(s: Seq<char>, pos: int, start: int, t: TermView)
    requires
        readable_term(t),
        0 <= pos <= start,
        skip_spaces(s, pos) == start,
        start + show_term(t).len() <= s.len(),
        s.subrange(start, start + show_term(t).len()) == show_term(t),
        ends_term(s, start + show_term(t).len()),
    ensures
        parse_term(s, pos) matches Some((u, end)) && u == bare_term(t) && start + show_term(t).len()
            <= end <= skip_spaces(s, start + show_term(t).len()),
    decreases t, 1int,
{
    let text = show_term(t);
    lemma_show_term_first(t);
    lemma_part(s, start, text, 0, text.len() as int);
    assert(s[start + 0] == text[0]);
    lemma_skip_spaces(s, start + text.len());
    match t {
        TermView::Var(v) => {
            lemma_read_name(s, start, v.name);
        },
        TermView::Pred(p) => {
            lemma_read_pred(s, pos, start, p);
        },
        TermView::List(_) => {},
    }
}

/// The text of a readable predicate, standing in `s` where the parser
/// starts to read after white space, and ended there for the parser, is
/// read as the predicate with its identifiers set to 0.
pub proof fn lemma_read_pred(s: Seq<char>, pos: int, start: int, p: PredView)
    requires
        readable_pred(p),
        0 <= pos <= start,
        skip_spaces(s, pos) == start,
        start + show_pred(p).len() <= s.len(),
        s.subrange(start, start + show_pred(p).len()) == show_pred(p),
        ends_term(s, start + show_pred(p).len()),
    ensures
        parse_pred(s, pos) matches Some((q, end)) && q == bare_pred(p) && start + show_pred(p).len()
            <= end <= skip_spaces(s, start + show_pred(p).len()),
    decreases p, 0int,
{
    let text = show_pred(p);
    let n = p.name.len() as int;
    lemma_punctuation();
    lemma_show_pred_first(p);
    lemma_part(s, start, text, 0, n);
    assert(s[start + 0] == text[0]);
    lemma_skip_spaces(s, start + text.len());
    if p.args is Nil {
        lemma_read_name(s, start, p.name);
    } else {
        let inner = show_list(p.args);
        let m = inner.len() as int;
        assert(text == p.name + seq!['('] + inner + seq![')']);
        assert(text.len() == n + 1 + m + 1);
        assert(text[n] == '(');
        assert(text[n + 1 + m] == ')');
        assert(text.subrange(n + 1, n + 1 + m) =~= inner);
        lemma_part(s, start, text, n + 1, n + 1 + m);
        assert(s[start + n] == text[n]);
        assert(s[start + (n + 1 + m)] == text[n + 1 + m]);
        lemma_read_name(s, start, p.name);
        lemma_no_space(s, start + n);
        lemma_show_list_first(p.args);
        assert(s[start + (n + 1)] == text[n + 1]);
        assert(text[n + 1] == inner[0]);
        lemma_no_space(s, start + n + 1);
        lemma_read_list(s, start + n + 1, start + n + 1, p.args, ')');
    }
}

/// The text of a readable list that is not empty, followed by `close`, is
/// read as the list with its identifiers set to 0, up to behind `close`.
pub proof fn lemma_read_list(s: Seq<char>, pos: int, start: int, l: ListView, close: char)
    requires
        readable_list(l),
        l is Cons,
        close == ')' || close == '.',
        0 <= pos <= start,
        skip_spaces(s, pos) == start,
        start + show_list(l).len() < s.len(),
        s.subrange(start, start + show_list(l).len()) == show_list(l),
        s[start + show_list(l).len()] == close,
    ensures
        parse_args(s, pos, close) == Some((bare_list(l), start + show_list(l).len() + 1)),
    decreases l, 2int,
{
    lemma_punctuation();
    match l {
        ListView::Cons(head, tail) => {
            let first = show_term(*head);
            let h = first.len() as int;
            let text = show_list(l);
            lemma_show_term_first(*head);
            if *tail is Nil {
                lemma_no_space(s, start + h);
                lemma_read_term(s, pos, start, *head);
                let e = start + h;
                assert(parse_term(s, pos) == Some((bare_term(*head), e)));
                assert(parse_more(s, e, close) == Some((ListView::Nil, e + 1)));
            } else {
                let rest = show_list(*tail);
                let r = rest.len() as int;
                assert(text == first + seq![',', ' '] + rest);
                assert(text.len() == h + 2 + r);
                assert(text.subrange(0, h) =~= first);
                assert(text.subrange(h + 2, h + 2 + r) =~= rest);
                lemma_part(s, start, text, 0, h);
                lemma_part(s, start, text, h + 2, h + 2 + r);
                assert(text[h] == ',');
                assert(text[h + 1] == ' ');
                assert(s[start + h] == text[h]);
                assert(s[start + (h + 1)] == text[h + 1]);
                lemma_show_list_first(*tail);
                assert(text[h + 2] == rest[0]);
                assert(s[start + (h + 2)] == text[h + 2]);
                lemma_no_space(s, start + h);
                lemma_read_term(s, pos, start, *head);
                let e = start + h;
                assert(parse_term(s, pos) == Some((bare_term(*head), e)));
                lemma_one_space(s, e + 1);
                lemma_read_list(s, e + 1, e + 2, *tail, close);
                assert(parse_args(s, e + 1, close) == Some((bare_list(*tail), e + 2 + r + 1)));
                assert(parse_more(s, e, close) == Some((bare_list(*tail), e + 2 + r + 1)));
            }
        },
        _ => {},
    }
}

/// Where the head and the period stand in the text of a fact.
proof fn lemma_fact_layout(c: ClauseView)
    requires
        c.body is Nil,
    ensures
        show_clause(c).len() == show_pred(c.head).len() + 1,
        show_clause(c).subrange(0, show_pred(c.head).len() as int) == show_pred(c.head),
        show_clause(c)[show_pred(c.head).len() as int] == '.',
{
    let s = show_clause(c);
    let head = show_pred(c.head);
    assert(s == head + seq!['.']);
    assert(s.subrange(0, head.len() as int) =~= head);
}

/// Where the head, the body and the marks stand in the text of a rule.
proof fn lemma_rule_layout(c: ClauseView)
    requires
        !(c.body is Nil),
    ensures
        ({
            let s = show_clause(c);
            let h = show_pred(c.head).len() as int;
            let b = show_list(c.body).len() as int;
            &&& s.len() == h + 4 + b + 1
            &&& s.subrange(0, h) == show_pred(c.head)
            &&& s.subrange(h + 4, h + 4 + b) == show_list(c.body)
            &&& s[h] == ' '
            &&& s[h + 1] == ':'
            &&& s[h + 2] == '-'
            &&& s[h + 3] == ' '
            &&& s[h + 4 + b] == '.'
        }),
{
    let s = show_clause(c);
    let head = show_pred(c.head);
    let body = show_list(c.body);
    let h = head.len() as int;
    let b = body.len() as int;
    assert(s == head + seq![' ', ':', '-', ' '] + body + seq!['.']);
    assert(s.subrange(0, h) =~= head);
    assert(s.subrange(h + 4, h + 4 + b) =~= body);
}

/// The text of a readable fact is read as the fact.
proof fn lemma_read_fact(c: ClauseView)
    requires
        readable_clause(c),
        c.body is Nil,
    ensures
        parse_clause(show_clause(c), 0) matches Some((d, _)) && d == bare_clause(c),
{
    let s = show_clause(c);
    let h = show_pred(c.head).len() as int;
    lemma_punctuation();
    lemma_show_pred_first(c.head);
    lemma_fact_layout(c);
    lemma_part(s, 0, show_pred(c.head), 0, h);
    assert(s[0int + 0] == show_pred(c.head)[0]);
    lemma_no_space(s, 0);
    lemma_no_space(s, h);
    lemma_read_pred(s, 0, 0, c.head);
    let end = parse_pred(s, 0)->Some_0.1;
    assert(end == h);
}

/// The text of a readable rule is read as the rule.
proof fn lemma_read_rule(c: ClauseView)
    requires
        readable_clause(c),
        !(c.body is Nil),
    ensures
        parse_clause(show_clause(c), 0) matches Some((d, _)) && d == bare_clause(c),
{
    let s = show_clause(c);
    let h = show_pred(c.head).len() as int;
    let body = show_list(c.body);
    let b = body.len() as int;
    lemma_punctuation();
    lemma_show_pred_first(c.head);
    lemma_rule_layout(c);
    lemma_part(s, 0, show_pred(c.head), 0, h);
    assert(s[0int + 0] == show_pred(c.head)[0]);
    lemma_show_list_first(c.body);
    lemma_part(s, h + 4, body, 0, b);
    assert(s[h + 4 + 0int] == body[0]);
    lemma_no_space(s, 0);
    lemma_no_space(s, h + 1);
    lemma_no_space(s, h + 4);
    assert(skip_spaces(s, h) == h + 1);
    assert(skip_spaces(s, h + 3) == h + 4);
    lemma_read_pred(s, 0, 0, c.head);
    let end = parse_pred(s, 0)->Some_0.1;
    assert(h <= end <= h + 1);
    assert(skip_spaces(s, end) == h + 1);
    lemma_read_list(s, h + 3, h + 4, c.body, '.');
}

/// The text of a readable clause is read as the clause with its
/// identifiers set to 0.
pub proof fn lemma_read_clause(c: ClauseView)
    requires
        readable_clause(c),
    ensures
        parse_command(show_clause(c)) == Some(CommandView::Assertion(bare_clause(c))),
{
    let s = show_clause(c);
    lemma_punctuation();
    lemma_show_pred_first(c.head);
    if c.body is Nil {
        lemma_fact_layout(c);
        lemma_read_fact(c);
    } else {
        lemma_rule_layout(c);
        lemma_read_rule(c);
    }
    lemma_part(s, 0, show_pred(c.head), 0, 1);
    assert(s[0int + 0] == show_pred(c.head)[0]);
    assert(lowercase(s[0]));
    lemma_no_space(s, 0);
}

/// What the parser reads is a term of the grammar, with the identifier 0
/// for every variable.
pub proof fn lemma_parse_term_readable(s: Seq<char>, pos: int)
    ensures
        parse_term(s, pos) matches Some((t, _)) ==> readable_term(t) && bare_term(t) == t,
    decreases s.len() - pos, 2int,
{
    lemma_skip_spaces(s, pos);
    let start = skip_spaces(s, pos);
    crate::parser::lemma_identifier_end(s, start + 1);
    if 0 <= pos && start < s.len() && lowercase(s[start]) {
        lemma_parse_pred_readable(s, pos);
    } else if parse_variable(s, pos) is Some {
        let name = parse_variable(s, pos)->Some_0.0.name;
        assert(name[0] == s[start]);
        assert forall|i: int| 1 <= i < name.len() implies identifier_char(#[trigger] name[i]) by {
            assert(name[i] == s[start + i]);
        }
    }
}

/// A predicate that the parser reads is one of the grammar, with the
/// identifier 0 for every variable.
pub proof fn lemma_parse_pred_readable(s: Seq<char>, pos: int)
    ensures
        parse_pred(s, pos) matches Some((p, _)) ==> readable_pred(p) && bare_pred(p) == p,
    decreases s.len() - pos, 1int,
{
    lemma_skip_spaces(s, pos);
    let start = skip_spaces(s, pos);
    crate::parser::lemma_identifier_end(s, start + 1);
    match parse_atom(s, pos) {
        None => {},
        Some((name, name_end)) => {
            assert(name[0] == s[start]);
            assert forall|i: int| 1 <= i < name.len() implies identifier_char(#[trigger] name[i]) by {
                assert(name[i] == s[start + i]);
            }
            lemma_skip_spaces(s, name_end);
            let open = skip_spaces(s, name_end);
            if open < s.len() && s[open] == '(' {
                lemma_parse_args_readable(s, open + 1, ')');
            }
        },
    }
}

/// A list that the parser reads is not empty and holds terms of the
/// grammar, with the identifier 0 for every variable.
pub proof fn lemma_parse_args_readable(s: Seq<char>, pos: int, close: char)
    ensures
        parse_args(s, pos, close) matches Some((l, _)) ==> readable_list(l) && bare_list(l) == l
            && l is Cons,
    decreases s.len() - pos, 4int,
{
    lemma_parse_term_readable(s, pos);
    match parse_term(s, pos) {
        Some((first, after)) => {
            if pos < after <= s.len() {
                lemma_parse_more_readable(s, after, close);
            }
        },
        None => {},
    }
}

/// The rest of a list that the parser reads holds terms of the grammar,
/// with the identifier 0 for every variable.
pub proof fn lemma_parse_more_readable(s: Seq<char>, pos: int, close: char)
    ensures
        parse_more(s, pos, close) matches Some((l, _)) ==> readable_list(l) && bare_list(l) == l,
    decreases s.len() - pos, 0int,
{
    lemma_skip_spaces(s, pos);
    let at = skip_spaces(s, pos);
    if 0 <= at < s.len() && s[at] != close && s[at] == ',' {
        lemma_parse_term_readable(s, at + 1);
        match parse_term(s, at + 1) {
            Some((arg, after)) => {
                if at < after <= s.len() {
                    lemma_parse_more_readable(s, after, close);
                }
            },
            None => {},
        }
    }
}

/// An assertion that the parser reads is a clause of the grammar, with the
/// identifier 0 for every variable.
pub proof fn lemma_parse_command_readable(s: Seq<char>)
    ensures
        parse_command(s) matches Some(CommandView::Assertion(c)) ==> readable_clause(c)
            && bare_clause(c) == c,
        parse_command(s) matches Some(CommandView::Question(t)) ==> readable_term(t) && bare_term(
            t,
        ) == t,
{
    let at = skip_spaces(s, 0);
    lemma_skip_spaces(s, 0);
    if at < s.len() {
        if s[at] == '?' {
            lemma_parse_term_readable(s, at + 2);
        } else {
            lemma_parse_pred_readable(s, at);
            match parse_pred(s, at) {
                Some((head, after)) => {
                    let colon = skip_spaces(s, after);
                    lemma_parse_args_readable(s, colon + 2, '.');
                },
                None => {},
            }
        }
    }
}

/// Whether `m` gives every variable that it knows one of the same name.
pub open spec fn keeps_names(m: Map<VarView, VarView>) -> bool {
    forall|v: VarView| m.contains_key(v) ==> (#[trigger] m[v]).name == v.name
}

/// The text of a term does not tell of a renaming that keeps the names.
pub proof fn lemma_show_term_renamed(t: TermView, m: Map<VarView, VarView>)
    requires
        keeps_names(m),
    ensures
        show_term(substitute_term(t, m)) == show_term(t),
    decreases t,
{
    match t {
        TermView::Var(v) => {
            if m.contains_key(v) {
                assert(m[v].name == v.name);
            }
        },
        TermView::Pred(p) => {
            lemma_show_list_renamed(p.args, m);
        },
        TermView::List(l) => {
            lemma_show_list_renamed(l, m);
        },
    }
}

/// The text of a list does not tell of a renaming that keeps the names.
pub proof fn lemma_show_list_renamed(l: ListView, m: Map<VarView, VarView>)
    requires
        keeps_names(m),
    ensures
        show_list(substitute_list(l, m)) == show_list(l),
        substitute_list(l, m) is Nil <==> l is Nil,
    decreases l,
{
    match l {
        ListView::Nil => {},
        ListView::Cons(head, tail) => {
            lemma_show_term_renamed(*head, m);
            lemma_show_list_renamed(*tail, m);
        },
    }
}

/// The text of a clause does not tell of a renaming that keeps the names.
pub proof fn lemma_show_clause_renamed(c: ClauseView, m: Map<VarView, VarView>)
    requires
        keeps_names(m),
    ensures
        show_clause(substitute_clause(c, m)) == show_clause(c),
{
    lemma_show_list_renamed(c.head.args, m);
    lemma_show_list_renamed(c.body, m);
}

/// The variable of the same name with the identifier 0.
pub open spec fn bare_var(v: VarView) -> VarView {
    VarView { name: v.name, id: 0 }
}

/// The renaming that gives a variable what `target` gives the variable of
/// the same name with the identifier 0.
pub open spec fn renaming_to(target: Map<VarView, VarView>) -> Map<VarView, VarView> {
    Map::new(|w: VarView| target.contains_key(bare_var(w)), |w: VarView| target[bare_var(w)])
}

/// A term renamed once, and then by `renaming_to(second)`, is the term
/// renamed by `second`.
proof fn lemma_renamed_again_term(t: TermView, first: Map<VarView, VarView>, second: Map<VarView, VarView>)
    requires
        bare_term(t) == t,
        covers_term(first, t),
        covers_term(second, t),
        keeps_names(first),
    ensures
        substitute_term(substitute_term(t, first), renaming_to(second)) == substitute_term(
            t,
            second,
        ),
    decreases t,
{
    match t {
        TermView::Var(v) => {
            assert(occurs_in_term(v, t));
            assert(first.contains_key(v));
            assert(second.contains_key(v));
            assert(v.id == 0);
            assert(first[v].name == v.name);
            assert(bare_var(first[v]) == v);
        },
        TermView::Pred(p) => {
            assert forall|v: VarView| occurs_in_list(v, p.args) implies #[trigger]
                first.contains_key(v) && second.contains_key(v) by {
                assert(occurs_in_term(v, t));
            }
            lemma_renamed_again_list(p.args, first, second);
        },
        TermView::List(l) => {
            assert forall|v: VarView| occurs_in_list(v, l) implies #[trigger] first.contains_key(
                v,
            ) && second.contains_key(v) by {
                assert(occurs_in_term(v, t));
            }
            lemma_renamed_again_list(l, first, second);
        },
    }
}

/// A list renamed once, and then by `renaming_to(second)`, is the list
/// renamed by `second`.
proof fn lemma_renamed_again_list(l: ListView, first: Map<VarView, VarView>, second: Map<VarView, VarView>)
    requires
        bare_list(l) == l,
        covers_list(first, l),
        covers_list(second, l),
        keeps_names(first),
    ensures
        substitute_list(substitute_list(l, first), renaming_to(second)) == substitute_list(
            l,
            second,
        ),
    decreases l,
{
    match l {
        ListView::Nil => {},
        ListView::Cons(head, tail) => {
            assert forall|v: VarView| occurs_in_term(v, *head) implies #[trigger]
                first.contains_key(v) && second.contains_key(v) by {
                assert(occurs_in_list(v, l));
            }
            assert forall|v: VarView| occurs_in_list(v, *tail) implies #[trigger]
                first.contains_key(v) && second.contains_key(v) by {
                assert(occurs_in_list(v, l));
            }
            lemma_renamed_again_term(*head, first, second);
            lemma_renamed_again_list(*tail, first, second);
        },
    }
}

/// Two renamings of a clause whose variables have the identifier 0 differ
/// by a renaming: one that takes the first to the second, and different
/// variables of the first to different variables.
pub proof fn lemma_renamed_again(c: ClauseView, next: nat, later: nat)
    requires
        bare_clause(c) == c,
    ensures
        ({
            let first = rename_clause(c, Map::empty(), next);
            let again = rename_clause(c, Map::empty(), later);
            let m = renaming_to(again.dict);
            &&& again.value == substitute_clause(first.value, m)
            &&& forall|v: VarView, w: VarView|
                #![trigger occurs_in_clause(v, first.value), occurs_in_clause(w, first.value)]
                occurs_in_clause(v, first.value) && occurs_in_clause(w, first.value) && v != w
                    ==> m.contains_key(v) && m.contains_key(w) && m[v] != m[w]
        }),
{
    let first = rename_clause(c, Map::empty(), next);
    let again = rename_clause(c, Map::empty(), later);
    let m = renaming_to(again.dict);
    lemma_rename_clause_shares(c, Map::empty(), next);
    lemma_rename_clause_shares(c, Map::empty(), later);
    assert(keeps_names(first.dict));
    assert forall|v: VarView| occurs_in_list(v, c.head.args) implies #[trigger]
        first.dict.contains_key(v) && again.dict.contains_key(v) by {
        assert(occurs_in_clause(v, c));
    }
    assert forall|v: VarView| occurs_in_list(v, c.body) implies #[trigger] first.dict.contains_key(
        v,
    ) && again.dict.contains_key(v) by {
        assert(occurs_in_clause(v, c));
    }
    lemma_renamed_again_list(c.head.args, first.dict, again.dict);
    lemma_renamed_again_list(c.body, first.dict, again.dict);
    assert forall|v: VarView, w: VarView|
        #![trigger occurs_in_clause(v, first.value), occurs_in_clause(w, first.value)]
        occurs_in_clause(v, first.value) && occurs_in_clause(w, first.value) && v
            != w implies m.contains_key(v) && m.contains_key(w) && m[v] != m[w] by {
        let a = lemma_source_of(c, first.dict, v);
        let b = lemma_source_of(c, first.dict, w);
        assert(first.dict[a].name == a.name);
        assert(first.dict[b].name == b.name);
        lemma_bare_occurs_clause(c, a);
        lemma_bare_occurs_clause(c, b);
        assert(bare_var(v) == a);
        assert(bare_var(w) == b);
        assert(again.dict.contains_key(a));
        assert(again.dict.contains_key(b));
        assert(again.dict[a].id != again.dict[b].id);
        assert(m.contains_key(v));
        assert(m.contains_key(w));
    }
}

/// A variable of a renamed clause stands for a variable of the source.
proof fn lemma_source_of(c: ClauseView, m: Map<VarView, VarView>, w: VarView) -> (v: VarView)
    requires
        covers_clause(m, c),
        occurs_in_clause(w, substitute_clause(c, m)),
    ensures
        occurs_in_clause(v, c),
        m.contains_key(v),
        m[v] == w,
{
    assert forall|v: VarView| occurs_in_list(v, c.head.args) implies #[trigger] m.contains_key(
        v,
    ) by {
        assert(occurs_in_clause(v, c));
    }
    assert forall|v: VarView| occurs_in_list(v, c.body) implies #[trigger] m.contains_key(v) by {
        assert(occurs_in_clause(v, c));
    }
    if occurs_in_list(w, substitute_list(c.head.args, m)) {
        lemma_substitute_list_occurs(c.head.args, m, w);
        choose|v: VarView| occurs_in_list(v, c.head.args) && #[trigger] m.contains_key(v) && m[v] == w
    } else {
        lemma_substitute_list_occurs(c.body, m, w);
        choose|v: VarView| occurs_in_list(v, c.body) && #[trigger] m.contains_key(v) && m[v] == w
    }
}

/// A variable of a term whose identifiers are 0 has the identifier 0.
proof fn lemma_bare_occurs_term(t: TermView, v: VarView)
    requires
        bare_term(t) == t,
        occurs_in_term(v, t),
    ensures
        v.id == 0,
    decreases t,
{
    match t {
        TermView::Var(_) => {},
        TermView::Pred(p) => {
            lemma_bare_occurs_list(p.args, v);
        },
        TermView::List(l) => {
            lemma_bare_occurs_list(l, v);
        },
    }
}

/// A variable of a list whose identifiers are 0 has the identifier 0.
proof fn lemma_bare_occurs_list(l: ListView, v: VarView)
    requires
        bare_list(l) == l,
        occurs_in_list(v, l),
    ensures
        v.id == 0,
    decreases l,
{
    match l {
        ListView::Nil => {},
        ListView::Cons(head, tail) => {
            if occurs_in_term(v, *head) {
                lemma_bare_occurs_term(*head, v);
            } else {
                lemma_bare_occurs_list(*tail, v);
            }
        },
    }
}

/// A variable of a clause whose identifiers are 0 has the identifier 0.
proof fn lemma_bare_occurs_clause(c: ClauseView, v: VarView)
    requires
        bare_clause(c) == c,
        occurs_in_clause(v, c),
    ensures
        v.id == 0,
{
    if occurs_in_list(v, c.head.args) {
        lemma_bare_occurs_list(c.head.args, v);
    } else {
        lemma_bare_occurs_list(c.body, v);
    }
}

/// Reading a line, writing the clause it gives, and reading what was
/// written gives the same clause before its variables are numbered; so
/// the two numbered clauses differ by a renaming of variables alone.
pub proof fn lemma_parse_show_parse(line: Seq<char>, next: nat, later: nat)
    requires
        parse_command(line) matches Some(CommandView::Assertion(_)),
    ensures
        ({
            let c = parse_command(line)->Some_0->Assertion_0;
            let first = rename_clause(c, Map::empty(), next);
            let again = rename_clause(c, Map::empty(), later);
            let m = renaming_to(again.dict);
            &&& parse_command(show_clause(first.value)) == Some(CommandView::Assertion(c))
            &&& again.value == substitute_clause(first.value, m)
            &&& forall|v: VarView, w: VarView|
                #![trigger occurs_in_clause(v, first.value), occurs_in_clause(w, first.value)]
                occurs_in_clause(v, first.value) && occurs_in_clause(w, first.value) && v != w
                    ==> m.contains_key(v) && m.contains_key(w) && m[v] != m[w]
        }),
{
    let c = parse_command(line)->Some_0->Assertion_0;
    let first = rename_clause(c, Map::empty(), next);
    lemma_parse_command_readable(line);
    lemma_rename_clause_shares(c, Map::empty(), next);
    assert(keeps_names(first.dict));
    lemma_show_clause_renamed(c, first.dict);
    lemma_read_clause(c);
    lemma_renamed_again(c, next, later);
}

} // verus!
