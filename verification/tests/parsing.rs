use minilog::chars::{identifier_character, is_digit, is_letter, is_lowercase, is_space, is_uppercase};
use minilog::parser::{
    arguments, arguments_impl, atom, clause, command, consume_spaces, identifier, parse_line,
    predicate, term, variable, Command, ParseError,
};
use minilog::store::Store;
use minilog::term::{Term, Variable};

fn chars(s: &str) -> Vec<char> {
    s.chars().collect()
}

fn assertion(line: &str, store: &mut Store) -> minilog::term::Clause {
    match parse_line(&chars(line), store) {
        Ok(Command::Assertion(c)) => c,
        other => panic!("not an assertion: {:?}", other),
    }
}

fn question(line: &str, store: &mut Store) -> Term {
    match parse_line(&chars(line), store) {
        Ok(Command::Question(t)) => t,
        other => panic!("not a question: {:?}", other),
    }
}

fn ids(vs: &[Variable]) -> Vec<(String, usize)> {
    vs.iter().map(|v| (v.name.clone(), v.id)).collect()
}

#[test]
fn character_classes_in_ascii() {
    for c in [' ', '\t', '\n', '\r', '\x0b', '\x0c'] {
        assert!(is_space(c));
    }
    for c in ['a', '(', '.', '\x08', '\x0e', '_'] {
        assert!(!is_space(c));
    }
    assert!(is_lowercase('a') && is_lowercase('z') && !is_lowercase('A') && !is_lowercase('1'));
    assert!(is_uppercase('A') && is_uppercase('Z') && !is_uppercase('a') && !is_uppercase('_'));
    assert!(is_letter('q') && is_letter('Q') && !is_letter('5') && !is_letter('-'));
    assert!(is_digit('0') && is_digit('9') && !is_digit('a') && !is_digit('/'));
    for c in ['a', 'Z', '7', '_', '-'] {
        assert!(identifier_character(c));
    }
    for c in ['(', ')', ',', '.', ':', ' ', '?', '[', '`', '{', '@'] {
        assert!(!identifier_character(c));
    }
}

#[test]
fn character_classes_beyond_ascii_follow_the_standard_library() {
    assert!(is_space('\u{a0}') && is_space('\u{2003}') && !is_space('é'));
    assert!(is_lowercase('é') && !is_lowercase('É') && !is_lowercase('京'));
    assert!(is_uppercase('É') && !is_uppercase('é') && !is_uppercase('京'));
    assert!(is_letter('京') && is_letter('é') && !is_letter('→'));
    assert!(is_digit('٣') && is_digit('½') && !is_digit('é'));
    assert!(identifier_character('é') && identifier_character('٣') && !identifier_character('→'));
    for c in ['\u{80}', 'é', 'É', '京', '→', '٣', '\u{a0}', '\u{10ffff}'] {
        assert_eq!(is_space(c), c.is_whitespace());
        assert_eq!(is_lowercase(c), c.is_lowercase());
        assert_eq!(is_uppercase(c), c.is_uppercase());
        assert_eq!(is_letter(c), c.is_alphabetic());
        assert_eq!(is_digit(c), c.is_numeric());
    }
    for n in 0u32..128 {
        let c = char::from_u32(n).unwrap();
        assert_eq!(is_space(c), c.is_whitespace());
        assert_eq!(is_lowercase(c), c.is_lowercase());
        assert_eq!(is_uppercase(c), c.is_uppercase());
        assert_eq!(is_letter(c), c.is_alphabetic());
        assert_eq!(is_digit(c), c.is_numeric());
    }
}

#[test]
fn consume_spaces_stops_at_first_other_character() {
    let input = chars("  \t x  ");
    assert_eq!(consume_spaces(&input, 0), 4);
    assert_eq!(consume_spaces(&input, 4), 4);
    assert_eq!(consume_spaces(&input, 5), 7);
    assert_eq!(consume_spaces(&input, 7), 7);
}

#[test]
fn identifier_reads_the_run() {
    let input = chars("grand-parent_2(x");
    let (name, end) = identifier(&input, 0);
    assert_eq!(name, "grand-parent_2");
    assert_eq!(end, 14);
    let (name, end) = identifier(&input, 13);
    assert_eq!(name, "2");
    assert_eq!(end, 14);
    let (name, end) = identifier(&input, 15);
    assert_eq!(name, "x");
    assert_eq!(end, 16);
}

#[test]
fn atom_and_variable_by_first_letter() {
    let input = chars("  tom Bob");
    let (a, end) = atom(&input, 0).expect("an atom");
    assert_eq!(a.name, "tom");
    assert_eq!(end, 5);
    assert!(variable(&input, 0).is_none());
    let (v, end) = variable(&input, 5).expect("a variable");
    assert_eq!(v.name, "Bob");
    assert_eq!(v.id, 0);
    assert_eq!(end, 9);
    assert!(atom(&input, 5).is_none());
    assert!(atom(&input, 9).is_none());
    assert!(atom(&chars("_x"), 0).is_none());
    assert!(variable(&chars("1x"), 0).is_none());
}

#[test]
fn term_reads_predicates_and_variables() {
    let input = chars(" f( X ,g(a) , Y) rest");
    let (t, end) = term(&input, 0).expect("a term");
    assert_eq!(t.render(), "f(X, g(a), Y)");
    assert_eq!(end, 16);
    let (t, end) = term(&chars("Xyz,"), 0).expect("a term");
    assert_eq!(t.render(), "Xyz");
    assert_eq!(end, 3);
    assert!(term(&chars(""), 0).is_none());
    assert!(term(&chars("   "), 0).is_none());
    assert!(term(&chars("(a)"), 0).is_none());
    assert!(term(&chars("f()"), 0).is_none());
    assert!(term(&chars("f(a"), 0).is_none());
    assert!(term(&chars("f(a,)"), 0).is_none());
    assert!(term(&chars("f(a b)"), 0).is_none());
}

#[test]
fn predicate_without_brackets_is_a_constant() {
    let input = chars("tom  , bob");
    let (p, end) = predicate(&input, 0).expect("a predicate");
    assert_eq!(p.render(), "tom");
    assert!(p.arguments.iter().is_empty());
    assert_eq!(end, 5);
    assert!(predicate(&chars("Tom"), 0).is_none());
}

#[test]
fn arguments_read_up_to_the_closing_character() {
    let input = chars("a, B ,c) tail");
    let (l, end) = arguments(&input, 0, ')').expect("a list");
    assert_eq!(l.render(), "a, B, c");
    assert_eq!(end, 8);
    let (l, end) = arguments_impl(&input, 1, ')').expect("the rest");
    assert_eq!(l.render(), "B, c");
    assert_eq!(end, 8);
    let (l, end) = arguments_impl(&chars(" )"), 0, ')').expect("the end");
    assert!(l.iter().is_empty());
    assert_eq!(end, 2);
    assert!(arguments(&chars(")"), 0, ')').is_none());
    assert!(arguments(&chars("a, b"), 0, ')').is_none());
    assert!(arguments_impl(&chars("; b)"), 0, ')').is_none());
    assert!(arguments_impl(&chars(""), 0, ')').is_none());
}

#[test]
fn clause_reads_facts_and_rules() {
    let (c, _) = clause(&chars("parent(tom, bob)."), 0).expect("a fact");
    assert_eq!(c.render(), "parent(tom, bob).");
    assert!(c.conditions.iter().is_empty());
    let (c, end) = clause(&chars("gp(X,Z):-p(X,Y),p(Y,Z). junk"), 0).expect("a rule");
    assert_eq!(c.render(), "gp(X, Z) :- p(X, Y), p(Y, Z).");
    assert_eq!(end, 23);
    let (c, _) = clause(&chars("rain."), 0).expect("a bare fact");
    assert_eq!(c.render(), "rain.");
    let (c, _) = clause(&chars("wet :- rain ."), 0).expect("a bare rule");
    assert_eq!(c.render(), "wet :- rain.");
    assert!(clause(&chars("parent(tom, bob)"), 0).is_none());
    assert!(clause(&chars("a : - b."), 0).is_none());
    assert!(clause(&chars("a :- ."), 0).is_none());
    assert!(clause(&chars("a :- b"), 0).is_none());
    assert!(clause(&chars("a ; b."), 0).is_none());
    assert!(clause(&chars("X."), 0).is_none());
}

#[test]
fn command_tells_questions_from_assertions() {
    match command(&chars("  ?- parent(tom, X) . ")) {
        Some(Command::Question(t)) => assert_eq!(t.render(), "parent(tom, X)"),
        other => panic!("{:?}", other),
    }
    match command(&chars("parent(tom, bob).")) {
        Some(Command::Assertion(c)) => assert_eq!(c.render(), "parent(tom, bob)."),
        other => panic!("{:?}", other),
    }
    assert!(command(&chars("? - a.")).is_none());
    assert!(command(&chars("?- a")).is_none());
    assert!(command(&chars("?-")).is_none());
    assert!(command(&chars("?")).is_none());
    assert!(command(&chars("")).is_none());
    assert!(command(&chars("   ")).is_none());
}

#[test]
fn parse_line_numbers_variables_by_name() {
    let mut store = Store::new();
    let c = assertion("grandparent(X, Z) :- parent(X, Y), parent(Y, Z).", &mut store);
    assert_eq!(
        ids(&c.result.variables()),
        vec![("X".to_string(), 1), ("Z".to_string(), 2)]
    );
    assert_eq!(
        ids(&c.conditions.variables()),
        vec![("X".to_string(), 1), ("Y".to_string(), 3), ("Z".to_string(), 2)]
    );
    assert_eq!(store.peek_id(), 4);
    // The same names on another line are other variables.
    let q = question("?- grandparent(X, W).", &mut store);
    assert_eq!(ids(&q.variables()), vec![("X".to_string(), 4), ("W".to_string(), 5)]);
    assert_eq!(store.peek_id(), 6);
    assert_eq!(store.mark(), 0);
}

#[test]
fn parse_line_rejects_what_is_not_in_the_grammar() {
    let mut store = Store::new();
    for line in [
        "",
        "   ",
        "parent(tom, bob)",
        "Parent(tom).",
        "parent(tom,).",
        "parent().",
        "parent(tom bob).",
        "?- .",
        "?-parent(tom",
        "? parent(tom).",
        "a :- .",
        "a : b.",
        ".",
        "(a).",
        "1a.",
    ] {
        assert_eq!(parse_line(&chars(line), &mut store).err(), Some(ParseError::Malformed), "{}", line);
    }
    assert_eq!(store.peek_id(), 1);
}

#[test]
fn parse_line_ignores_what_follows_the_period() {
    let mut store = Store::new();
    let c = assertion("a(X). b(Y).", &mut store);
    assert_eq!(c.render(), "a(X).");
    assert_eq!(store.peek_id(), 2);
    let q = question("?- a(b). and more", &mut store);
    assert_eq!(q.render(), "a(b)");
}

#[test]
fn parse_line_accepts_hyphen_and_underscore_in_names() {
    let mut store = Store::new();
    let c = assertion("is-a(my_cat, Some-Thing_1).", &mut store);
    assert_eq!(c.render(), "is-a(my_cat, Some-Thing_1).");
    assert_eq!(ids(&c.result.variables()), vec![("Some-Thing_1".to_string(), 1)]);
}

#[test]
fn parse_line_accepts_letters_beyond_ascii() {
    let mut store = Store::new();
    let c = assertion("élève(Élodie, ét京٣).", &mut store);
    assert_eq!(c.result.name.name, "élève");
    assert_eq!(c.render(), "élève(Élodie, ét京٣).");
    assert_eq!(ids(&c.result.variables()), vec![("Élodie".to_string(), 1)]);
    // An ideograph is a letter, but neither lowercase nor uppercase: no term starts with it.
    assert_eq!(parse_line(&chars("京(a)."), &mut store).err(), Some(ParseError::Malformed));
    let d = assertion("\u{a0}a\u{2003}(\u{a0}b ) .", &mut store);
    assert_eq!(d.render(), "a(b).");
}

#[test]
fn parse_line_stops_when_identifiers_run_out() {
    let mut store = Store::starting_at(usize::MAX - 1);
    assert_eq!(
        parse_line(&chars("p(X, Y)."), &mut store).err(),
        Some(ParseError::IdsExhausted)
    );
    assert_eq!(
        parse_line(&chars("?- p(X, X)."), &mut store).err(),
        Some(ParseError::IdsExhausted)
    );
    assert_eq!(store.peek_id(), usize::MAX - 1);
    let q = question("?- p(X).", &mut store);
    assert_eq!(ids(&q.variables()), vec![("X".to_string(), usize::MAX - 1)]);
    assert_eq!(store.peek_id(), usize::MAX);
    assert_eq!(parse_line(&chars("?- X."), &mut store).err(), Some(ParseError::IdsExhausted));
    assert!(parse_line(&chars("?- a."), &mut store).is_ok());
}

#[test]
fn render_writes_what_the_parser_reads() {
    let mut store = Store::new();
    for line in [
        "rain.",
        "parent(tom, bob).",
        "grandparent(X, Z) :- parent(X, Y), parent(Y, Z).",
        "deep(f(g(h(A, b)), A), B) :- B, deep(A, A).",
        "is-a(x_1, Y-2) :- Y-2.",
    ] {
        let first = assertion(line, &mut store);
        let written = first.render();
        assert_eq!(written, line);
        let second = assertion(&written, &mut store);
        assert_eq!(second.render(), written);
        // The same clause up to the identifiers: the same names in the
        // same places, and as many different variables.
        let mut a = first.result.variables();
        first.conditions.collect(&mut a);
        let mut b = second.result.variables();
        second.conditions.collect(&mut b);
        assert_eq!(a.len(), b.len());
        for (v, w) in a.iter().zip(b.iter()) {
            assert_eq!(v.name, w.name);
            assert!(v.id < w.id);
        }
    }
}

#[test]
fn reparsed_clause_unifies_with_the_first() {
    let mut store = Store::new();
    let first = assertion("p(X, f(Y, X), Z) :- q(Z, Y).", &mut store);
    let second = assertion(&first.render(), &mut store);
    assert_eq!(first.result.unify(&second.result, &mut store, 16), Ok(()));
    assert_eq!(first.conditions.unify(&second.conditions, &mut store, 16), Ok(()));
    // Only variables were bound, each to a variable.
    assert_eq!(store.mark(), 3);
    for v in first.result.variables() {
        match store.lookup(&v).expect("bound") {
            Term::Var(w) => assert_eq!(w.name, v.name),
            _ => panic!("bound to a variable"),
        }
    }
}

#[test]
fn render_of_terms() {
    let mut store = Store::new();
    let q = question("?- f( A,b ,g( c ) ).", &mut store);
    assert_eq!(q.render(), "f(A, b, g(c))");
    match &q {
        Term::Pred(p) => {
            assert_eq!(p.render(), "f(A, b, g(c))");
            assert_eq!(p.name.render(), "f");
            assert_eq!(p.arguments.render(), "A, b, g(c)");
            assert_eq!(p.variables()[0].render(), "A");
        }
        _ => panic!("a predicate"),
    }
    let l = Term::List(minilog::term::List::Nil);
    assert_eq!(l.render(), "");
}
