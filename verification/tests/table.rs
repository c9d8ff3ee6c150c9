//! Tests for the symbol table and the registrar: uniqueness within each
//! kind, the loaded-path registry, and the property closure.

use comet::ast::{Constraint, Declaration, TypeDecl, BehaviorDecl, FuncDecl, FlowDecl, TypedArg};
use comet::constraints::Atom;
use comet::semantics::{SemanticAnalyzer, SemanticError};
use comet::synthesis::Synthesizer;

fn type_decl(name: &str, parent: Option<Constraint>, props: Vec<&str>) -> Declaration {
    Declaration::Type(TypeDecl {
        name: name.to_string(),
        parent_constraint: parent,
        properties: props.into_iter().map(|p| p.to_string()).collect(),
        components: None,
        structure: None,
    })
}

fn behavior_decl(name: &str, args: Vec<(&str, Constraint)>, ret: Constraint) -> Declaration {
    Declaration::Behavior(BehaviorDecl {
        name: name.to_string(),
        args: args
            .into_iter()
            .map(|(n, c)| TypedArg { name: n.to_string(), constraint: c })
            .collect(),
        return_type: ret,
    })
}

fn func_decl(name: &str, params: Vec<(&str, Constraint)>, ret: Constraint) -> Declaration {
    Declaration::Function(FuncDecl {
        name: name.to_string(),
        params: params
            .into_iter()
            .map(|(n, c)| TypedArg { name: n.to_string(), constraint: c })
            .collect(),
        return_type: ret,
        body: vec![],
    })
}

fn flow_decl(name: &str) -> Declaration {
    Declaration::Flow(FlowDecl { name: name.to_string(), body: vec![] })
}

fn atom(name: &str) -> Constraint {
    Constraint::Atom(name.to_string())
}

#[test]
fn duplicate_type_is_rejected() {
    let mut a = SemanticAnalyzer::new();
    assert!(a.register_declaration(type_decl("Px", None, vec![])).is_ok());
    let r = a.register_declaration(type_decl("Px", None, vec![]));
    assert!(matches!(r, Err(SemanticError::DuplicateType(n)) if n == "Px"));
    assert_eq!(a.symbol_table.types.len(), 1);
}

#[test]
fn duplicate_behavior_is_rejected() {
    let mut a = SemanticAnalyzer::new();
    assert!(a.register_declaration(behavior_decl("op", vec![], atom("A"))).is_ok());
    let r = a.register_declaration(behavior_decl("op", vec![], atom("B")));
    assert!(matches!(r, Err(SemanticError::DuplicateBehavior(n)) if n == "op"));
}

#[test]
fn duplicate_function_is_rejected() {
    let mut a = SemanticAnalyzer::new();
    assert!(a.register_declaration(func_decl("f", vec![], atom("A"))).is_ok());
    let r = a.register_declaration(func_decl("f", vec![], atom("A")));
    assert!(matches!(r, Err(SemanticError::DuplicateFunction(n)) if n == "f"));
}

#[test]
fn duplicate_flow_is_rejected() {
    let mut a = SemanticAnalyzer::new();
    assert!(a.register_declaration(flow_decl("main")).is_ok());
    let r = a.register_declaration(flow_decl("main"));
    assert!(matches!(r, Err(SemanticError::DuplicateFlow(n)) if n == "main"));
}

#[test]
fn kinds_do_not_shadow_each_other() {
    let mut a = SemanticAnalyzer::new();
    assert!(a.register_declaration(type_decl("X", None, vec![])).is_ok());
    assert!(a.register_declaration(behavior_decl("X", vec![], atom("A"))).is_ok());
    assert!(a.register_declaration(func_decl("X", vec![], atom("A"))).is_ok());
    assert!(a.register_declaration(flow_decl("X")).is_ok());
}

#[test]
fn lookup_finds_registered_symbols() {
    let mut a = SemanticAnalyzer::new();
    a.register_declaration(type_decl("Px", None, vec!["Clean"])).unwrap();
    let t = a.symbol_table.get_type("Px").expect("registered type");
    assert_eq!(t.name, "Px");
    assert_eq!(t.properties, vec!["Clean".to_string()]);
    assert!(a.symbol_table.get_type("Qx").is_none());
}

#[test]
fn same_source_path_is_loaded_once() {
    let mut a = SemanticAnalyzer::new();
    assert!(a.register_source("/work/universe.cm".to_string()));
    assert!(a.register_source("/work/prices.cm".to_string()));
    assert!(!a.register_source("/work/universe.cm".to_string()));
    assert_eq!(a.loaded_files.len(), 2);
}

#[test]
fn property_closure_walks_parents_transitively() {
    let mut a = SemanticAnalyzer::new();
    a.register_declaration(type_decl("B", None, vec!["Q"])).unwrap();
    a.register_declaration(type_decl("A", Some(atom("B")), vec!["P"])).unwrap();
    let sy = Synthesizer::new(&a.symbol_table);
    let full = sy.fully_expand_chain(vec![Atom::Type("A".to_string())]);
    assert_eq!(
        full,
        vec![
            Atom::Type("A".to_string()),
            Atom::Type("B".to_string()),
            Atom::Type("P".to_string()),
            Atom::Type("Q".to_string()),
        ]
    );
}

#[test]
fn property_closure_terminates_on_parent_cycle() {
    let mut a = SemanticAnalyzer::new();
    a.register_declaration(type_decl("A", Some(atom("B")), vec![])).unwrap();
    a.register_declaration(type_decl("B", Some(atom("A")), vec![])).unwrap();
    let sy = Synthesizer::new(&a.symbol_table);
    let full = sy.fully_expand_chain(vec![Atom::Type("A".to_string())]);
    assert_eq!(full, vec![Atom::Type("A".to_string()), Atom::Type("B".to_string())]);
}

#[test]
fn integer_rendering_matches_decimal() {
    assert_eq!(comet::synthesis::i64_to_string(0), "0");
    assert_eq!(comet::synthesis::i64_to_string(42), "42");
    assert_eq!(comet::synthesis::i64_to_string(-120), "-120");
    assert_eq!(comet::synthesis::i64_to_string(9_007_199_254_740_993), "9007199254740993");
    assert_eq!(comet::synthesis::i64_to_string(i64::MIN), "-9223372036854775808");
    assert_eq!(comet::synthesis::i64_to_string(i64::MAX), "9223372036854775807");
}
