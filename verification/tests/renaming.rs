use minilog::error::DeriveError;
use minilog::rename::Renaming;
use minilog::store::Store;
use minilog::term::{Atom, Clause, List, Predicate, Term, Variable};

fn constant(name: &str) -> Term {
    Term::Pred(Predicate { name: Atom::new(name.to_string()), arguments: List::Nil })
}

fn items(terms: Vec<Term>) -> List {
    let mut l = List::Nil;
    for t in terms.into_iter().rev() {
        l = List::Cons(Box::new(t), Box::new(l));
    }
    l
}

fn compound(name: &str, args: Vec<Term>) -> Predicate {
    Predicate { name: Atom::new(name.to_string()), arguments: items(args) }
}

fn ids_of(vs: &[Variable]) -> Vec<usize> {
    vs.iter().map(|v| v.id).collect()
}

#[test]
fn instantiate_keeps_sharing() {
    let mut store = Store::new();
    let x = Variable::brand_new("X".to_string(), &mut store);
    let y = Variable::brand_new("Y".to_string(), &mut store);
    // p(X, Y, X)
    let p = compound("p", vec![Term::Var(x.clone()), Term::Var(y.clone()), Term::Var(x.clone())]);
    let mut dict = Renaming::new();
    let q = p.instantiate(&mut store, &mut dict);
    let args: Vec<&Term> = q.arguments.iter();
    let got: Vec<(String, usize)> = args
        .iter()
        .map(|t| match t {
            Term::Var(v) => (v.name.clone(), v.id),
            _ => panic!("a variable"),
        })
        .collect();
    assert_eq!(
        got,
        vec![("X".to_string(), 3), ("Y".to_string(), 4), ("X".to_string(), 3)]
    );
    assert_eq!(q.name.name, "p");
    assert_eq!(store.peek_id(), 5);
    assert!(dict.get(&x).expect("known") == &Variable::new("X".to_string(), 3));
    assert!(dict.get(&y).expect("known") == &Variable::new("Y".to_string(), 4));
}

#[test]
fn instantiate_shares_between_head_and_body() {
    let mut store = Store::new();
    let x = Variable::brand_new("X".to_string(), &mut store);
    let z = Variable::brand_new("Z".to_string(), &mut store);
    let y = Variable::brand_new("Y".to_string(), &mut store);
    let clause = Clause {
        result: compound("grandparent", vec![Term::Var(x.clone()), Term::Var(z.clone())]),
        conditions: items(vec![
            Term::Pred(compound("parent", vec![Term::Var(x.clone()), Term::Var(y.clone())])),
            Term::Pred(compound("parent", vec![Term::Var(y.clone()), Term::Var(z.clone())])),
        ]),
    };
    let mut dict = Renaming::new();
    let fresh = clause.instantiate(&mut store, &mut dict);
    assert_eq!(fresh.render(), clause.render());
    assert_eq!(ids_of(&fresh.result.variables()), vec![4, 5]);
    assert_eq!(ids_of(&fresh.conditions.variables()), vec![4, 6, 5]);
    // The source is left as it was.
    assert_eq!(ids_of(&clause.result.variables()), vec![1, 2]);
    assert_eq!(ids_of(&clause.conditions.variables()), vec![1, 3, 2]);
}

#[test]
fn instantiate_gives_variables_apart_from_the_source() {
    let mut store = Store::new();
    let x = Variable::brand_new("X".to_string(), &mut store);
    let y = Variable::brand_new("Y".to_string(), &mut store);
    let clause = Clause {
        result: compound("p", vec![Term::Var(x.clone()), Term::Var(y.clone())]),
        conditions: items(vec![Term::Var(y.clone())]),
    };
    let first = clause.instantiate(&mut store, &mut Renaming::new());
    let second = clause.instantiate(&mut store, &mut Renaming::new());
    let mut seen: Vec<Variable> = Vec::new();
    for c in [&clause, &first, &second] {
        let mut own = c.result.variables();
        c.conditions.collect(&mut own);
        assert_eq!(own.len(), 2);
        for v in own {
            assert!(!seen.contains(&v));
            seen.push(v);
        }
    }
    assert_eq!(seen.len(), 6);
}

#[test]
fn instantiate_uses_what_the_dictionary_knows() {
    let mut store = Store::new();
    let x = Variable::brand_new("X".to_string(), &mut store);
    let known = Variable::new("K".to_string(), 40);
    let mut dict = Renaming::new();
    dict.insert(x.clone(), known.clone());
    let got = x.instantiate(&mut store, &mut dict);
    assert!(got == known);
    assert_eq!(store.peek_id(), 2);
    let t = Term::List(items(vec![Term::Var(x.clone()), constant("a")]));
    assert_eq!(format!("{:?}", t.instantiate(&mut store, &mut dict)),
        format!("{:?}", Term::List(items(vec![Term::Var(known.clone()), constant("a")]))));
}

#[test]
fn instantiate_atom_is_the_atom() {
    let mut dict = Renaming::new();
    let a = Atom::new("tom".to_string());
    assert!(a.instantiate(&mut dict) == a);
    assert!(dict.get(&Variable::new("X".to_string(), 1)).is_none());
}

#[test]
fn instantiate_ignores_bindings() {
    let mut store = Store::new();
    let x = Variable::brand_new("X".to_string(), &mut store);
    store.bind(x.clone(), constant("a"));
    let got = Term::Var(x.clone()).instantiate(&mut store, &mut Renaming::new());
    match got {
        Term::Var(v) => {
            assert_eq!(v.id, 2);
            assert!(store.lookup(&v).is_none());
        }
        _ => panic!("a variable"),
    }
}

#[test]
fn spend_counts_occurrences() {
    let x = Variable::new("X".to_string(), 1);
    let t = Term::Pred(compound("p", vec![Term::Var(x.clone()), constant("a"), Term::Var(x.clone())]));
    assert_eq!(t.spend(5), Some(3));
    assert_eq!(t.spend(2), Some(0));
    assert_eq!(t.spend(1), None);
    let clause = Clause {
        result: compound("p", vec![Term::Var(x.clone())]),
        conditions: items(vec![Term::Var(x.clone()), Term::Var(x.clone())]),
    };
    assert!(clause.fits(3));
    assert!(!clause.fits(2));
}

#[test]
fn derive_stops_when_identifiers_run_out() {
    let mut store = Store::starting_at(usize::MAX - 1);
    let x = Variable::new("X".to_string(), 1);
    let y = Variable::new("Y".to_string(), 2);
    let knowledge = vec![Clause {
        result: compound("p", vec![Term::Var(x.clone()), Term::Var(y.clone())]),
        conditions: List::Nil,
    }];
    let goal = compound("p", vec![constant("a"), constant("b")]);
    assert_eq!(goal.derive(&knowledge, &mut store, 8).err(), Some(DeriveError::IdsExhausted));
    assert_eq!(store.peek_id(), usize::MAX - 1);
    assert_eq!(store.mark(), 0);
    let mut roomy = Store::starting_at(usize::MAX - 2);
    assert!(goal.derive(&knowledge, &mut roomy, 8).is_ok());
    assert_eq!(roomy.peek_id(), usize::MAX);
}

#[test]
fn derive_answers_are_the_goal_variables() {
    let mut store = Store::new();
    let a = Variable::brand_new("A".to_string(), &mut store);
    let b = Variable::brand_new("B".to_string(), &mut store);
    let knowledge = vec![
        Clause { result: compound("p", vec![constant("one"), constant("two")]), conditions: List::Nil },
    ];
    let goal = Term::List(items(vec![
        Term::Pred(compound("p", vec![Term::Var(a.clone()), Term::Var(b.clone())])),
        Term::Var(a.clone()),
    ]));
    let vars = goal.derive(&knowledge, &mut store, 8).expect("proved");
    assert_eq!(vars.len(), 2);
    assert!(vars[0] == a);
    assert!(vars[1] == b);
    assert_eq!(store.lookup(&a).expect("bound").render(), "one");
    assert_eq!(store.lookup(&b).expect("bound").render(), "two");
}

#[test]
fn derive_conjunction_failure_undoes_earlier_conjuncts() {
    let mut store = Store::new();
    let a = Variable::brand_new("A".to_string(), &mut store);
    let knowledge = vec![
        Clause { result: compound("p", vec![constant("one")]), conditions: List::Nil },
    ];
    let goals = items(vec![
        Term::Pred(compound("p", vec![Term::Var(a.clone())])),
        Term::Pred(compound("q", vec![Term::Var(a.clone())])),
    ]);
    assert_eq!(goals.derive(&knowledge, &mut store, 8).err(), Some(DeriveError::NoMatchingClause));
    assert_eq!(store.mark(), 0);
    assert!(store.lookup(&a).is_none());
    assert!(List::Nil.derive(&knowledge, &mut store, 0).expect("empty conjunction").is_empty());
}

#[test]
fn derive_with_empty_knowledge_fails() {
    let mut store = Store::new();
    let goal = compound("p", vec![]);
    assert_eq!(goal.derive(&[], &mut store, 8).err(), Some(DeriveError::NoMatchingClause));
    assert_eq!(goal.derive(&[], &mut store, 0).err(), Some(DeriveError::NoMatchingClause));
}

#[test]
fn derive_result_does_not_depend_on_sufficient_depth() {
    let knowledge = vec![
        Clause { result: compound("p", vec![constant("a")]), conditions: List::Nil },
        Clause {
            result: compound("q", vec![Term::Var(Variable::new("X".to_string(), 1))]),
            conditions: items(vec![Term::Pred(compound("p", vec![Term::Var(Variable::new("X".to_string(), 1))]))]),
        },
    ];
    let mut outcomes = Vec::new();
    for depth in [2usize, 3, 10, 100] {
        let mut store = Store::starting_at(10);
        let w = Variable::brand_new("W".to_string(), &mut store);
        let goal = compound("q", vec![Term::Var(w.clone())]);
        let r = goal.derive(&knowledge, &mut store, depth);
        assert!(r.is_ok());
        outcomes.push((store.mark(), store.peek_id(), Term::Var(w).resolve(&store, 4).expect("fits").render()));
    }
    assert!(outcomes.iter().all(|o| *o == outcomes[0]));
    assert_eq!(outcomes[0].2, "a");
    let mut store = Store::starting_at(10);
    let goal = compound("q", vec![constant("a")]);
    assert_eq!(goal.derive(&knowledge, &mut store, 1).err(), Some(DeriveError::DepthExceeded));
}

#[test]
fn renamed_apart_starts_from_an_empty_dictionary() {
    let mut store = Store::new();
    let x = Variable::brand_new("X".to_string(), &mut store);
    let clause = Clause {
        result: compound("p", vec![Term::Var(x.clone())]),
        conditions: items(vec![Term::Var(x.clone())]),
    };
    let first = clause.renamed_apart(&mut store).expect("identifiers are left");
    let second = clause.renamed_apart(&mut store).expect("identifiers are left");
    assert_eq!(ids_of(&first.result.variables()), vec![2]);
    assert_eq!(ids_of(&first.conditions.variables()), vec![2]);
    assert_eq!(ids_of(&second.result.variables()), vec![3]);
    let t = Term::Pred(compound("q", vec![Term::Var(x.clone()), Term::Var(x.clone())]));
    let copy = t.renamed_apart(&mut store).expect("identifiers are left");
    assert_eq!(ids_of(&copy.variables()), vec![4]);
    assert_eq!(store.peek_id(), 5);
}

#[test]
fn renamed_apart_needs_an_identifier_for_each_occurrence() {
    let x = Variable::new("X".to_string(), 1);
    let clause = Clause {
        result: compound("p", vec![Term::Var(x.clone())]),
        conditions: items(vec![Term::Var(x.clone())]),
    };
    let mut store = Store::starting_at(usize::MAX - 1);
    assert!(clause.renamed_apart(&mut store).is_none());
    assert_eq!(store.peek_id(), usize::MAX - 1);
    let mut store = Store::starting_at(usize::MAX - 2);
    assert!(clause.renamed_apart(&mut store).is_some());
    assert_eq!(store.peek_id(), usize::MAX - 1);
    let mut store = Store::starting_at(usize::MAX);
    assert!(Term::Var(x.clone()).renamed_apart(&mut store).is_none());
    assert!(constant("a").renamed_apart(&mut store).is_some());
}
