use mgu::engine::{calculate_mgu, unify, Constraints, Unifier};
use mgu::term::Term;

fn var(name: &str) -> Term {
    Term::Var(name.to_string())
}

fn func(symbol: &str, args: Vec<Term>) -> Term {
    Term::Func(symbol.to_string(), args)
}

fn apply_all(unifier: &Unifier, term: &Term) -> Term {
    let mut out = term.clone();
    for binding in unifier {
        out = out.unify(binding);
    }
    out
}

fn solve_pair(lhs: Term, rhs: Term) -> Option<Unifier> {
    let mut constraints: Constraints = Constraints::new();
    constraints.push_back((lhs, rhs));
    calculate_mgu(&constraints)
}

#[test]
fn renders_variable_as_its_name() {
    assert_eq!(var("x").to_string(), "x");
}

#[test]
fn renders_constant_as_bare_symbol() {
    assert_eq!(func("a", vec![]).to_string(), "a");
}

#[test]
fn renders_nested_compound_with_commas() {
    let t = func("f", vec![func("g", vec![var("y")]), var("z")]);
    assert_eq!(t.to_string(), "f(g(y),z)");
}

#[test]
fn appear_finds_variable_at_any_depth() {
    let t = func("f", vec![func("g", vec![var("y")]), var("z")]);
    assert!(t.appear(&"y".to_string()));
    assert!(t.appear(&"z".to_string()));
    assert!(!t.appear(&"x".to_string()));
    assert!(!t.appear(&"f".to_string()));
}

#[test]
fn appear_on_bare_variable_compares_names() {
    assert!(var("x").appear(&"x".to_string()));
    assert!(!var("x").appear(&"y".to_string()));
}

#[test]
fn unify_replaces_every_occurrence() {
    let t = func("f", vec![var("x"), func("g", vec![var("x"), var("y")])]);
    let binding = ("x".to_string(), func("a", vec![]));
    let expected = func(
        "f",
        vec![
            func("a", vec![]),
            func("g", vec![func("a", vec![]), var("y")]),
        ],
    );
    assert_eq!(t.unify(&binding), expected);
}

#[test]
fn unify_leaves_other_variables_alone() {
    let binding = ("x".to_string(), func("a", vec![]));
    assert_eq!(var("y").unify(&binding), var("y"));
}

#[test]
fn propagation_rewrites_every_pending_constraint() {
    let mut queue: Constraints = Constraints::new();
    queue.push_back((var("x"), var("y")));
    queue.push_back((func("f", vec![var("x")]), var("z")));
    let binding = ("x".to_string(), func("a", vec![]));
    let rewritten = unify(&mut queue, &binding);
    assert!(queue.is_empty());
    assert_eq!(rewritten.len(), 2);
    assert_eq!(rewritten[0], (func("a", vec![]), var("y")));
    assert_eq!(rewritten[1], (func("f", vec![func("a", vec![])]), var("z")));
}

#[test]
fn canonical_example_yields_both_bindings() {
    let t1 = func("f", vec![func("g", vec![var("y")]), var("z")]);
    let t2 = func("f", vec![var("x"), func("g", vec![var("y")])]);
    let unifier = solve_pair(t1.clone(), t2.clone()).expect("a unifier exists");
    assert_eq!(
        unifier,
        vec![
            ("x".to_string(), func("g", vec![var("y")])),
            ("z".to_string(), func("g", vec![var("y")])),
        ]
    );
    let expected = func("f", vec![func("g", vec![var("y")]), func("g", vec![var("y")])]);
    assert_eq!(apply_all(&unifier, &t1), expected);
    assert_eq!(apply_all(&unifier, &t2), expected);
}

#[test]
fn applying_the_unifier_makes_both_sides_identical() {
    let a = func("p", vec![var("u"), func("h", vec![var("v")])]);
    let b = func("p", vec![func("k", vec![]), var("w")]);
    let unifier = solve_pair(a.clone(), b.clone()).expect("a unifier exists");
    assert_eq!(apply_all(&unifier, &a), apply_all(&unifier, &b));
}

#[test]
fn flipped_constraints_agree_on_success() {
    let a = func("f", vec![func("g", vec![var("y")]), var("z")]);
    let b = func("f", vec![var("x"), func("g", vec![var("y")])]);
    let forward = solve_pair(a.clone(), b.clone()).expect("a unifier exists");
    let backward = solve_pair(b.clone(), a.clone()).expect("a unifier exists");
    assert_eq!(apply_all(&forward, &a), apply_all(&forward, &b));
    assert_eq!(apply_all(&backward, &a), apply_all(&backward, &b));
}

#[test]
fn flipped_constraints_agree_on_failure() {
    let a = func("f", vec![var("x")]);
    let b = func("g", vec![var("x")]);
    assert_eq!(solve_pair(a.clone(), b.clone()), None);
    assert_eq!(solve_pair(b, a), None);
}

#[test]
fn identical_terms_unify_with_empty_unifier() {
    let t = func("f", vec![func("g", vec![var("y")]), var("z")]);
    assert_eq!(solve_pair(t.clone(), t), Some(vec![]));
    assert_eq!(solve_pair(var("x"), var("x")), Some(vec![]));
}

#[test]
fn occurs_check_rejects_cyclic_binding() {
    let lhs = var("x");
    let rhs = func("f", vec![var("x")]);
    assert_eq!(solve_pair(lhs.clone(), rhs.clone()), None);
    assert_eq!(solve_pair(rhs, lhs), None);
}

#[test]
fn occurs_check_rejects_deeply_nested_occurrence() {
    let rhs = func("f", vec![func("g", vec![func("h", vec![var("x")])])]);
    assert_eq!(solve_pair(var("x"), rhs), None);
}

#[test]
fn different_symbols_clash() {
    let lhs = func("f", vec![var("x")]);
    let rhs = func("g", vec![var("x")]);
    assert_eq!(solve_pair(lhs, rhs), None);
}

#[test]
fn different_arities_clash() {
    let lhs = func("f", vec![var("x"), var("y")]);
    let rhs = func("f", vec![var("x")]);
    assert_eq!(solve_pair(lhs, rhs), None);
}

#[test]
fn equal_constants_unify_with_empty_unifier() {
    assert_eq!(solve_pair(func("a", vec![]), func("a", vec![])), Some(vec![]));
}

#[test]
fn distinct_constants_clash() {
    assert_eq!(solve_pair(func("a", vec![]), func("b", vec![])), None);
}

#[test]
fn two_variables_bind_the_left_one() {
    let unifier = solve_pair(var("x"), var("y")).expect("a unifier exists");
    assert_eq!(unifier, vec![("x".to_string(), var("y"))]);
}

#[test]
fn empty_queue_yields_empty_unifier() {
    let constraints: Constraints = Constraints::new();
    assert_eq!(calculate_mgu(&constraints), Some(vec![]));
}

#[test]
fn several_constraints_are_all_settled() {
    let mut constraints: Constraints = Constraints::new();
    constraints.push_back((var("x"), func("a", vec![])));
    constraints.push_back((func("f", vec![var("x")]), func("f", vec![var("y")])));
    let unifier = calculate_mgu(&constraints).expect("a unifier exists");
    for (lhs, rhs) in [
        (var("x"), func("a", vec![])),
        (func("f", vec![var("x")]), func("f", vec![var("y")])),
    ] {
        assert_eq!(apply_all(&unifier, &lhs), apply_all(&unifier, &rhs));
    }
}

#[test]
fn conflicting_constraints_fail_late_in_the_queue() {
    let mut constraints: Constraints = Constraints::new();
    constraints.push_back((var("x"), func("a", vec![])));
    constraints.push_back((var("x"), func("b", vec![])));
    assert_eq!(calculate_mgu(&constraints), None);
}
