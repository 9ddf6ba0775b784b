use minilog::error::DeriveError;
use minilog::parser::{parse_line, Command};
use minilog::store::Store;
use minilog::term::{Clause, Term};

const DEPTH: usize = 32;

/// Feeds the lines to the engine as the driver does and returns what it
/// would print.
fn session(lines: &[&str]) -> Vec<String> {
    let mut store = Store::new();
    let mut knowledge: Vec<Clause> = Vec::new();
    let mut out = Vec::new();
    for line in lines {
        let chars: Vec<char> = line.chars().collect();
        match parse_line(&chars, &mut store) {
            Ok(Command::Assertion(clause)) => {
                out.push(format!("accepted: {}", clause.render()));
                knowledge.push(clause);
            }
            Ok(Command::Question(goal)) => {
                out.push(format!("asked: {}", goal.render()));
                match goal.derive(&knowledge, &mut store, DEPTH) {
                    Ok(vars) => {
                        out.push("true".to_string());
                        for v in vars.iter() {
                            let value = Term::Var(v.clone())
                                .resolve(&store, DEPTH)
                                .expect("the answer nests no deeper than the depth");
                            out.push(format!("  {} => {}", v.render(), value.render()));
                        }
                    }
                    Err(e) => out.push(format!("false: {}", e.message())),
                }
            }
            Err(_) => {}
        }
    }
    out
}

#[test]
fn facts_and_atomic_query() {
    let out = session(&["parent(tom, bob).", "parent(bob, ann).", "?- parent(tom, bob)."]);
    assert_eq!(
        out,
        vec![
            "accepted: parent(tom, bob).",
            "accepted: parent(bob, ann).",
            "asked: parent(tom, bob)",
            "true",
        ]
    );
}

#[test]
fn variable_query() {
    let out = session(&["parent(tom, bob).", "?- parent(tom, X)."]);
    assert_eq!(
        out,
        vec!["accepted: parent(tom, bob).", "asked: parent(tom, X)", "true", "  X => bob"]
    );
}

#[test]
fn rule_with_chaining() {
    let out = session(&[
        "parent(tom, bob).",
        "parent(bob, ann).",
        "grandparent(X, Z) :- parent(X, Y), parent(Y, Z).",
        "?- grandparent(tom, ann).",
    ]);
    assert_eq!(out[2], "accepted: grandparent(X, Z) :- parent(X, Y), parent(Y, Z).");
    assert_eq!(out[3], "asked: grandparent(tom, ann)");
    assert_eq!(out[4], "true");
    assert_eq!(out.len(), 5);
}

#[test]
fn rule_with_variable_answer() {
    let out = session(&[
        "parent(tom, bob).",
        "parent(bob, ann).",
        "grandparent(X, Z) :- parent(X, Y), parent(Y, Z).",
        "?- grandparent(tom, W).",
    ]);
    assert_eq!(out[4], "true");
    assert_eq!(out[5], "  W => ann");
    assert_eq!(out.len(), 6);
}

#[test]
fn failing_query() {
    let out = session(&["parent(tom, bob).", "?- parent(bob, tom)."]);
    assert_eq!(
        out,
        vec!["accepted: parent(tom, bob).", "asked: parent(bob, tom)", "false: no matching clause"]
    );
}

#[test]
fn recursive_rule_ends_at_base_case() {
    let out = session(&[
        "parent(a, b).",
        "parent(b, c).",
        "parent(c, d).",
        "ancestor(X, Y) :- parent(X, Y).",
        "ancestor(X, Y) :- parent(X, Z), ancestor(Z, Y).",
        "?- ancestor(a, d).",
    ]);
    assert_eq!(out[6], "true");
    assert_eq!(out.len(), 7);
}

#[test]
fn recursive_rule_fails_without_proof() {
    let out = session(&[
        "parent(a, b).",
        "parent(b, c).",
        "ancestor(X, Y) :- parent(X, Y).",
        "ancestor(X, Y) :- parent(X, Z), ancestor(Z, Y).",
        "?- ancestor(c, a).",
    ]);
    assert_eq!(out[5], "false: no matching clause");
}

#[test]
fn first_matching_clause_decides() {
    let out = session(&["likes(tom, tea).", "likes(tom, milk).", "?- likes(tom, What)."]);
    assert_eq!(out[3], "true");
    assert_eq!(out[4], "  What => tea");
}

#[test]
fn backtracking_undoes_bindings_of_failed_clause() {
    // The first clause for q binds X to a, then its body fails; the second
    // must see X unbound again.
    let out = session(&["q(a) :- nope.", "q(b).", "?- q(X)."]);
    assert_eq!(out[3], "true");
    assert_eq!(out[4], "  X => b");
    assert_eq!(out.len(), 5);
}

#[test]
fn malformed_lines_are_skipped() {
    let out = session(&["parent(tom, bob", "?- parent(tom.", "Parent(tom).", "", "parent(tom, bob)."]);
    assert_eq!(out, vec!["accepted: parent(tom, bob)."]);
}

#[test]
fn left_recursion_reaches_the_depth() {
    let mut store = Store::new();
    let mut knowledge: Vec<Clause> = Vec::new();
    let rule: Vec<char> = "loop(X) :- loop(X).".chars().collect();
    match parse_line(&rule, &mut store) {
        Ok(Command::Assertion(c)) => knowledge.push(c),
        _ => panic!("the rule is an assertion"),
    }
    let question: Vec<char> = "?- loop(a).".chars().collect();
    let goal = match parse_line(&question, &mut store) {
        Ok(Command::Question(g)) => g,
        _ => panic!("the question is a question"),
    };
    let mark = store.mark();
    let r = goal.derive(&knowledge, &mut store, 5);
    assert_eq!(r.err(), Some(DeriveError::DepthExceeded));
    assert_eq!(store.mark(), mark);
}

#[test]
fn variable_goal_holds_unbound() {
    let out = session(&["?- X."]);
    assert_eq!(out, vec!["asked: X", "true", "  X => X"]);
}

#[test]
fn answer_through_structure() {
    let out = session(&["wraps(box(Y), Y).", "?- wraps(X, gift)."]);
    assert_eq!(out[2], "true");
    assert_eq!(out[3], "  X => box(gift)");
}
