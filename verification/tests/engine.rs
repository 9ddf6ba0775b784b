use minilog::error::DeriveError;
use minilog::store::{get_debug, get_level, next_id, set_debug, shift, unshift, Store};
use minilog::term::{Atom, List, Predicate, Term, Variable};

const DEPTH: usize = 16;

fn atom(name: &str) -> Term {
    Term::Pred(Predicate { name: Atom::new(name.to_string()), arguments: List::Nil })
}

fn list(items: Vec<Term>) -> List {
    let mut l = List::Nil;
    for t in items.into_iter().rev() {
        l = List::Cons(Box::new(t), Box::new(l));
    }
    l
}

fn pred(name: &str, args: Vec<Term>) -> Term {
    Term::Pred(Predicate { name: Atom::new(name.to_string()), arguments: list(args) })
}

fn var(v: &Variable) -> Term {
    Term::Var(v.clone())
}

fn text(t: &Term, store: &Store) -> String {
    t.resolve(store, DEPTH).expect("within depth").render()
}

#[test]
fn fresh_identifiers_count_up_from_one() {
    let mut store = Store::new();
    assert_eq!(store.peek_id(), 1);
    assert_eq!(next_id(&mut store), 1);
    assert_eq!(next_id(&mut store), 2);
    let x = Variable::brand_new("X".to_string(), &mut store);
    let y = Variable::brand_new("X".to_string(), &mut store);
    assert_eq!(x.id, 3);
    assert_eq!(y.id, 4);
    assert_eq!(x.name, "X");
    assert!(x != y);
    assert!(x == x.clone());
    assert_eq!(store.peek_id(), 5);
}

#[test]
fn variables_are_equal_by_name_and_identifier() {
    let a = Variable::new("X".to_string(), 7);
    let b = Variable::new("X".to_string(), 7);
    let c = Variable::new("Y".to_string(), 7);
    let d = Variable::new("X".to_string(), 8);
    assert!(a == b);
    assert!(a != c);
    assert!(a != d);
    assert!(Atom::new("tom".to_string()) == Atom::new("tom".to_string()));
    assert!(Atom::new("tom".to_string()) != Atom::new("bob".to_string()));
}

#[test]
fn unify_binds_variable_to_atom() {
    let mut store = Store::new();
    let x = Variable::brand_new("X".to_string(), &mut store);
    let goal = pred("parent", vec![atom("tom"), var(&x)]);
    let fact = pred("parent", vec![atom("tom"), atom("bob")]);
    assert_eq!(goal.unify(&fact, &mut store, DEPTH), Ok(()));
    assert_eq!(store.mark(), 1);
    assert_eq!(store.lookup(&x).expect("bound").render(), "bob");
    assert_eq!(text(&goal, &store), "parent(tom, bob)");
    assert_eq!(text(&goal, &store), text(&fact, &store));
}

#[test]
fn unify_same_variable_binds_nothing() {
    let mut store = Store::new();
    let x = Variable::brand_new("X".to_string(), &mut store);
    assert_eq!(var(&x).unify(&var(&x), &mut store, DEPTH), Ok(()));
    assert_eq!(store.mark(), 0);
    assert!(store.lookup(&x).is_none());
}

#[test]
fn unify_two_variables_binds_the_left_one() {
    let mut store = Store::new();
    let x = Variable::brand_new("X".to_string(), &mut store);
    let y = Variable::brand_new("Y".to_string(), &mut store);
    assert_eq!(var(&x).unify(&var(&y), &mut store, DEPTH), Ok(()));
    assert_eq!(store.lookup(&x).expect("bound").render(), "Y");
    assert!(store.lookup(&y).is_none());
    // The other way round the walk of Y meets Y itself: nothing is bound,
    // and no cycle arises.
    assert_eq!(var(&y).unify(&var(&x), &mut store, DEPTH), Ok(()));
    assert_eq!(store.mark(), 1);
}

#[test]
fn unify_follows_existing_binding() {
    let mut store = Store::new();
    let x = Variable::brand_new("X".to_string(), &mut store);
    assert_eq!(var(&x).unify(&atom("tom"), &mut store, DEPTH), Ok(()));
    assert_eq!(var(&x).unify(&atom("tom"), &mut store, DEPTH), Ok(()));
    assert_eq!(store.mark(), 1);
    assert_eq!(var(&x).unify(&atom("bob"), &mut store, DEPTH), Err(DeriveError::NameMismatch));
    assert_eq!(store.mark(), 1);
    assert_eq!(store.lookup(&x).expect("bound").render(), "tom");
}

#[test]
fn unify_shares_bindings_left_to_right() {
    let mut store = Store::new();
    let x = Variable::brand_new("X".to_string(), &mut store);
    let both = pred("p", vec![var(&x), var(&x)]);
    assert_eq!(
        both.unify(&pred("p", vec![atom("a"), atom("b")]), &mut store, DEPTH),
        Err(DeriveError::NameMismatch)
    );
    assert_eq!(store.mark(), 0);
    assert!(store.lookup(&x).is_none());
    assert_eq!(both.unify(&pred("p", vec![atom("a"), atom("a")]), &mut store, DEPTH), Ok(()));
    assert_eq!(text(&both, &store), "p(a, a)");
}

#[test]
fn unify_fails_on_name_arity_and_type() {
    let mut store = Store::new();
    assert_eq!(
        atom("tom").unify(&atom("bob"), &mut store, DEPTH),
        Err(DeriveError::NameMismatch)
    );
    assert_eq!(
        pred("p", vec![atom("a")]).unify(&pred("p", vec![atom("a"), atom("b")]), &mut store, DEPTH),
        Err(DeriveError::ArityMismatch)
    );
    assert_eq!(
        pred("p", vec![atom("a"), atom("b")]).unify(&pred("p", vec![atom("a")]), &mut store, DEPTH),
        Err(DeriveError::ArityMismatch)
    );
    assert_eq!(
        Term::List(list(vec![atom("a")])).unify(&atom("a"), &mut store, DEPTH),
        Err(DeriveError::TypeMismatch)
    );
    assert_eq!(
        atom("a").unify(&Term::List(List::Nil), &mut store, DEPTH),
        Err(DeriveError::TypeMismatch)
    );
    assert_eq!(store.mark(), 0);
}

#[test]
fn unify_lists_as_terms() {
    let mut store = Store::new();
    let x = Variable::brand_new("X".to_string(), &mut store);
    let left = Term::List(list(vec![var(&x), atom("b")]));
    let right = Term::List(list(vec![atom("a"), atom("b")]));
    assert_eq!(left.unify(&right, &mut store, DEPTH), Ok(()));
    assert_eq!(store.lookup(&x).expect("bound").render(), "a");
    assert_eq!(Term::List(List::Nil).unify(&Term::List(List::Nil), &mut store, 1), Ok(()));
    assert_eq!(list(vec![]).unify(&list(vec![]), &mut store, 0), Ok(()));
    assert_eq!(
        list(vec![atom("a")]).unify(&list(vec![]), &mut store, DEPTH),
        Err(DeriveError::ArityMismatch)
    );
}

#[test]
fn unify_failure_restores_partial_bindings() {
    let mut store = Store::new();
    let x = Variable::brand_new("X".to_string(), &mut store);
    let y = Variable::brand_new("Y".to_string(), &mut store);
    assert_eq!(var(&y).unify(&atom("kept"), &mut store, DEPTH), Ok(()));
    let left = pred("p", vec![var(&x), atom("b")]);
    let right = pred("p", vec![atom("a"), atom("c")]);
    assert_eq!(left.unify(&right, &mut store, DEPTH), Err(DeriveError::NameMismatch));
    assert_eq!(store.mark(), 1);
    assert!(store.lookup(&x).is_none());
    assert_eq!(store.lookup(&y).expect("bound").render(), "kept");
}

#[test]
fn unify_depth_counts_nesting() {
    let mut store = Store::new();
    assert_eq!(atom("a").unify(&atom("a"), &mut store, 0), Err(DeriveError::DepthExceeded));
    assert_eq!(atom("a").unify(&atom("b"), &mut store, 0), Err(DeriveError::NameMismatch));
    assert_eq!(atom("a").unify(&atom("a"), &mut store, 1), Ok(()));
    let deep = pred("f", vec![pred("g", vec![atom("a")])]);
    assert_eq!(deep.unify(&deep.clone(), &mut store, 2), Err(DeriveError::DepthExceeded));
    assert_eq!(deep.unify(&deep.clone(), &mut store, 3), Ok(()));
    assert_eq!(deep.unify(&deep.clone(), &mut store, 300), Ok(()));
    assert_eq!(store.mark(), 0);
}

#[test]
fn unify_without_occurs_check_binds_and_then_runs_out_of_depth() {
    let mut store = Store::new();
    let x = Variable::brand_new("X".to_string(), &mut store);
    let y = Variable::brand_new("Y".to_string(), &mut store);
    // X = f(X) is accepted: no occurs check.
    assert_eq!(var(&x).unify(&pred("f", vec![var(&x)]), &mut store, DEPTH), Ok(()));
    assert_eq!(var(&y).unify(&pred("f", vec![var(&y)]), &mut store, DEPTH), Ok(()));
    assert_eq!(store.mark(), 2);
    // The two denote endless terms; comparing them ends at the depth.
    assert_eq!(var(&x).unify(&var(&y), &mut store, DEPTH), Err(DeriveError::DepthExceeded));
    assert_eq!(store.mark(), 2);
    assert!(var(&x).resolve(&store, DEPTH).is_none());
}

#[test]
fn assign_binds_or_unifies() {
    let mut store = Store::new();
    let x = Variable::brand_new("X".to_string(), &mut store);
    assert_eq!(x.assign(&atom("tom"), &mut store, DEPTH), Ok(()));
    assert_eq!(store.lookup(&x).expect("bound").render(), "tom");
    assert_eq!(x.assign(&atom("tom"), &mut store, DEPTH), Ok(()));
    assert_eq!(x.assign(&atom("ann"), &mut store, DEPTH), Err(DeriveError::NameMismatch));
    assert_eq!(store.mark(), 1);
}

#[test]
fn walk_follows_chains_to_their_end() {
    let mut store = Store::new();
    let x = Variable::brand_new("X".to_string(), &mut store);
    let y = Variable::brand_new("Y".to_string(), &mut store);
    let z = Variable::brand_new("Z".to_string(), &mut store);
    assert_eq!(store.walk(&var(&x)).render(), "X");
    assert_eq!(var(&x).unify(&var(&y), &mut store, DEPTH), Ok(()));
    assert_eq!(var(&y).unify(&var(&z), &mut store, DEPTH), Ok(()));
    assert_eq!(store.walk(&var(&x)).render(), "Z");
    assert_eq!(var(&z).unify(&pred("f", vec![var(&x)]), &mut store, DEPTH), Ok(()));
    assert_eq!(store.walk(&var(&x)).render(), "f(X)");
    assert_eq!(store.walk(&atom("a")).render(), "a");
}

#[test]
fn compress_shortens_a_chain() {
    let mut store = Store::new();
    let x = Variable::brand_new("X".to_string(), &mut store);
    let y = Variable::brand_new("Y".to_string(), &mut store);
    let z = Variable::brand_new("Z".to_string(), &mut store);
    assert_eq!(var(&x).unify(&var(&y), &mut store, DEPTH), Ok(()));
    assert_eq!(var(&y).unify(&var(&z), &mut store, DEPTH), Ok(()));
    // The chain ends in the unbound Z: compressing stops there.
    x.compress(&mut store);
    assert_eq!(store.lookup(&x).expect("bound").render(), "Z");
    assert_eq!(store.lookup(&y).expect("bound").render(), "Z");
    assert!(store.lookup(&z).is_none());
    assert_eq!(var(&z).unify(&atom("end"), &mut store, DEPTH), Ok(()));
    assert_eq!(store.lookup(&x).expect("bound").render(), "Z");
    x.compress(&mut store);
    assert_eq!(store.lookup(&x).expect("bound").render(), "end");
    assert_eq!(store.lookup(&y).expect("bound").render(), "Z");
    assert_eq!(store.walk(&var(&y)).render(), "end");
    assert_eq!(store.mark(), 3);
    // An unbound variable stays unbound.
    let w = Variable::brand_new("W".to_string(), &mut store);
    w.compress(&mut store);
    assert!(store.lookup(&w).is_none());
    assert_eq!(store.mark(), 3);
}

#[test]
fn bind_writes_a_cell() {
    let mut store = Store::new();
    let x = Variable::brand_new("X".to_string(), &mut store);
    let y = Variable::brand_new("Y".to_string(), &mut store);
    store.bind(x.clone(), atom("a"));
    store.bind(y.clone(), var(&Variable::new("Free".to_string(), 77)));
    assert_eq!(store.mark(), 2);
    assert_eq!(store.lookup(&x).expect("bound").render(), "a");
    assert_eq!(store.lookup(&y).expect("bound").render(), "Free");
    assert_eq!(store.peek_id(), 3);
}

#[test]
fn resolve_substitutes_all_the_way_down() {
    let mut store = Store::new();
    let x = Variable::brand_new("X".to_string(), &mut store);
    let y = Variable::brand_new("Y".to_string(), &mut store);
    let z = Variable::brand_new("Z".to_string(), &mut store);
    store.bind(x.clone(), pred("f", vec![var(&y), var(&z)]));
    store.bind(y.clone(), pred("g", vec![atom("a")]));
    assert_eq!(var(&x).resolve(&store, 3).expect("fits").render(), "f(g(a), Z)");
    assert!(var(&x).resolve(&store, 2).is_none());
    assert!(atom("a").resolve(&store, 0).is_none());
    assert_eq!(var(&z).resolve(&store, 0).expect("a variable").render(), "Z");
    let l = list(vec![var(&y), var(&z)]);
    assert_eq!(l.resolve(&store, 2).expect("fits").render(), "g(a), Z");
}

#[test]
fn variables_come_once_in_order_of_first_occurrence() {
    let x = Variable::new("X".to_string(), 1);
    let y = Variable::new("Y".to_string(), 2);
    let x2 = Variable::new("X".to_string(), 3);
    let t = pred("p", vec![var(&y), pred("q", vec![var(&x), var(&y)]), var(&x2), var(&x)]);
    let vs = t.variables();
    assert_eq!(vs.len(), 3);
    assert!(vs[0] == y);
    assert!(vs[1] == x);
    assert!(vs[2] == x2);
    assert!(atom("a").variables().is_empty());
    assert_eq!(var(&x).variables().len(), 1);
    let l = list(vec![var(&x), var(&x)]);
    assert_eq!(l.variables().len(), 1);
    match &t {
        Term::Pred(p) => assert_eq!(p.variables().len(), 3),
        _ => unreachable!(),
    }
}

#[test]
fn list_iter_gives_elements_in_order() {
    let l = list(vec![atom("a"), atom("b"), atom("c")]);
    let items: Vec<String> = l.iter().into_iter().map(|t| t.render()).collect();
    assert_eq!(items, vec!["a", "b", "c"]);
    assert!(List::Nil.iter().is_empty());
}

#[test]
fn clone_copies_structure() {
    let x = Variable::new("X".to_string(), 9);
    let t = pred("p", vec![var(&x), pred("q", vec![atom("a")])]);
    assert_eq!(format!("{:?}", t.clone()), format!("{:?}", t));
}

#[test]
fn tracing_flag_and_level() {
    let mut store = Store::new();
    assert!(!get_debug(&store));
    assert_eq!(get_level(&store), 0);
    set_debug(&mut store, true);
    assert!(get_debug(&store));
    shift(&mut store);
    shift(&mut store);
    assert_eq!(get_level(&store), 2);
    unshift(&mut store);
    assert_eq!(get_level(&store), 1);
    set_debug(&mut store, false);
    assert!(!get_debug(&store));
    assert_eq!(get_level(&store), 1);
    assert_eq!(store.peek_id(), 1);
}

#[test]
fn tracing_flag_does_not_change_results() {
    for debug in [false, true] {
        let mut store = Store::new();
        set_debug(&mut store, debug);
        let x = Variable::brand_new("X".to_string(), &mut store);
        assert_eq!(var(&x).unify(&atom("a"), &mut store, DEPTH), Ok(()));
        assert_eq!(store.lookup(&x).expect("bound").render(), "a");
        assert_eq!(get_debug(&store), debug);
    }
}

#[test]
fn error_messages() {
    assert_eq!(DeriveError::NameMismatch.message(), "predicate name mismatch");
    assert_eq!(DeriveError::ArityMismatch.message(), "arity mismatch");
    assert_eq!(DeriveError::TypeMismatch.message(), "type mismatch");
    assert_eq!(DeriveError::NoMatchingClause.message(), "no matching clause");
    assert_eq!(DeriveError::DepthExceeded.message(), "depth exceeded");
    assert_eq!(DeriveError::IdsExhausted.message(), "identifiers exhausted");
    assert!(DeriveError::DepthExceeded.limit());
    assert!(DeriveError::IdsExhausted.limit());
    assert!(!DeriveError::NoMatchingClause.limit());
    assert!(!DeriveError::NameMismatch.limit());
}

#[test]
fn variables_can_be_kept_in_a_hash_set() {
    let mut set = std::collections::HashSet::new();
    set.insert(Variable::new("X".to_string(), 1));
    set.insert(Variable::new("X".to_string(), 1));
    set.insert(Variable::new("X".to_string(), 2));
    set.insert(Variable::new("Y".to_string(), 1));
    assert_eq!(set.len(), 3);
    assert!(set.contains(&Variable::new("Y".to_string(), 1)));
}
