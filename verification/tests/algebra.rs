//! Tests for the constraint algebra: expansion, canonical ordering and
//! the subsumption check.

use comet::ast::Constraint;
use comet::constraints::{expand, matches_chain, Atom, ConstraintSet};

fn atom(name: &str) -> Constraint {
    Constraint::Atom(name.to_string())
}

fn addition(cs: Vec<Constraint>) -> Constraint {
    Constraint::Addition(cs)
}

fn union(cs: Vec<Constraint>) -> Constraint {
    Constraint::Union(cs)
}

fn subtraction(l: Constraint, r: Constraint) -> Constraint {
    Constraint::Subtraction(Box::new(l), Box::new(r))
}

fn ty(name: &str) -> Atom {
    Atom::Type(name.to_string())
}

fn var(name: &str) -> Atom {
    Atom::Variable(name.to_string())
}

/// Set-style comparison of two normalized constraint sets: same chains,
/// order of the chains themselves ignored.
fn same_chains(a: &ConstraintSet, b: &ConstraintSet) -> bool {
    a.len() == b.len() && a.iter().all(|ch| b.contains(ch))
}

#[test]
fn expand_single_atom() {
    let e = expand(&atom("Series"));
    assert_eq!(e, vec![vec![ty("Series")]]);
}

#[test]
fn expand_variable_sigil() {
    let e = expand(&atom("'a"));
    assert_eq!(e, vec![vec![var("'a")]]);
}

#[test]
fn expand_addition_sorts_and_dedups() {
    // Types sort lexically before variables, duplicates are suppressed.
    let e = expand(&addition(vec![atom("Zeta"), atom("'v"), atom("Alpha"), atom("Zeta")]));
    assert_eq!(e, vec![vec![ty("Alpha"), ty("Zeta"), var("'v")]]);
}

#[test]
fn expand_union_is_idempotent() {
    let c = union(vec![atom("A"), atom("B")]);
    let twice = union(vec![c_clone(&c), c_clone(&c)]);
    let once = expand(&c);
    let both = expand(&twice);
    assert!(same_chains(&once, &both));
}

#[test]
fn expand_addition_idempotent_on_single_chain() {
    let c = addition(vec![atom("A"), atom("B")]);
    let twice = addition(vec![c_clone(&c), c_clone(&c)]);
    assert!(same_chains(&expand(&c), &expand(&twice)));
}

#[test]
fn expand_addition_of_self_union_adds_cross_chain() {
    // Intersecting an alternation with itself also produces the mixed
    // chain, so idempotence does not hold for alternations.
    let c = union(vec![atom("A"), atom("B")]);
    let twice = addition(vec![c_clone(&c), c_clone(&c)]);
    let e = expand(&twice);
    assert_eq!(e.len(), 3);
    assert!(e.contains(&vec![ty("A")]));
    assert!(e.contains(&vec![ty("B")]));
    assert!(e.contains(&vec![ty("A"), ty("B")]));
}

#[test]
fn expand_distributes_intersection_over_alternation() {
    let lhs = union(vec![
        addition(vec![atom("A"), atom("C")]),
        addition(vec![atom("B"), atom("C")]),
    ]);
    let rhs = addition(vec![union(vec![atom("A"), atom("B")]), atom("C")]);
    assert!(same_chains(&expand(&lhs), &expand(&rhs)));
}

#[test]
fn expand_subtraction_removes_matching_alternative() {
    // (Series | DataFrame) - DataFrame leaves exactly Series.
    let parent = subtraction(union(vec![atom("Series"), atom("DataFrame")]), atom("DataFrame"));
    let e = expand(&parent);
    assert_eq!(e, vec![vec![ty("Series")]]);
}

#[test]
fn expand_subtraction_removes_superset_chains() {
    // (A B) - A is empty: the chain A B satisfies A, so it is removed.
    let c = subtraction(addition(vec![atom("A"), atom("B")]), atom("A"));
    assert_eq!(expand(&c), Vec::<Vec<Atom>>::new());
}

#[test]
fn expand_subtraction_keeps_unrelated_chain() {
    // A - B is just A when B is not part of A.
    let c = subtraction(atom("A"), atom("B"));
    assert_eq!(expand(&c), vec![vec![ty("A")]]);
}

#[test]
fn matches_chain_single_atom_membership() {
    let chain = vec![ty("NonZero"), ty("Series")];
    assert!(matches_chain(&chain, &atom("Series")));
    assert!(matches_chain(&chain, &atom("NonZero")));
    assert!(!matches_chain(&chain, &atom("DataFrame")));
}

#[test]
fn matches_chain_superset_satisfies_requirement() {
    let chain = vec![ty("NonZero"), ty("Series")];
    assert!(matches_chain(&chain, &addition(vec![atom("Series"), atom("NonZero")])));
}

#[test]
fn matches_chain_subset_fails_requirement() {
    let chain = vec![ty("Series")];
    assert!(!matches_chain(&chain, &addition(vec![atom("Series"), atom("NonZero")])));
}

#[test]
fn matches_chain_union_requirement() {
    let chain = vec![ty("NonZero"), ty("Series")];
    assert!(matches_chain(&chain, &union(vec![atom("Series"), atom("DataFrame")])));
    assert!(!matches_chain(&chain, &union(vec![atom("Volume"), atom("DataFrame")])));
}

#[test]
fn matches_chain_trivially_true_requirement() {
    // An empty intersection expands to the single empty chain, which
    // every chain satisfies.
    let chain = vec![ty("Anything")];
    assert!(matches_chain(&chain, &addition(vec![])));
    let empty: Vec<Atom> = vec![];
    assert!(matches_chain(&empty, &addition(vec![])));
}

#[test]
fn expand_empty_union_is_unsatisfiable() {
    assert_eq!(expand(&union(vec![])), Vec::<Vec<Atom>>::new());
    let chain = vec![ty("A")];
    assert!(!matches_chain(&chain, &union(vec![])));
}

/// Structural copy of a constraint tree, for building test inputs that
/// repeat a sub-constraint.
fn c_clone(c: &Constraint) -> Constraint {
    match c {
        Constraint::Atom(n) => Constraint::Atom(n.clone()),
        Constraint::Addition(cs) => Constraint::Addition(cs.iter().map(c_clone).collect()),
        Constraint::Union(cs) => Constraint::Union(cs.iter().map(c_clone).collect()),
        Constraint::Subtraction(l, r) => {
            Constraint::Subtraction(Box::new(c_clone(l)), Box::new(c_clone(r)))
        }
    }
}

#[test]
fn subtraction_distributes_over_union() {
    let lhs = subtraction(union(vec![atom("A"), atom("B")]), atom("B"));
    let rhs = union(vec![
        subtraction(atom("A"), atom("B")),
        subtraction(atom("B"), atom("B")),
    ]);
    assert!(same_chains(&expand(&lhs), &expand(&rhs)));
}
