//! End-to-end synthesis scenarios: each builds a symbol table, runs the
//! synthesizer on a flow, and checks the resulting contexts and graphs.

use comet::ast::{
    ArgValue, BehaviorDecl, Constraint, Declaration, Expr, FlowDecl, FlowStmt, FuncDecl,
    TypeDecl, TypedArg,
};
use comet::constraints::Atom;
use comet::ir::{ExecutionNode, OperatorOp};
use comet::semantics::SemanticAnalyzer;
use comet::synthesis::{Context, Synthesizer, SynthesisError};

fn atom(name: &str) -> Constraint {
    Constraint::Atom(name.to_string())
}

fn addition(cs: Vec<Constraint>) -> Constraint {
    Constraint::Addition(cs)
}

fn union(cs: Vec<Constraint>) -> Constraint {
    Constraint::Union(cs)
}

fn ty(name: &str) -> Atom {
    Atom::Type(name.to_string())
}

fn simple_type(name: &str) -> Declaration {
    Declaration::Type(TypeDecl {
        name: name.to_string(),
        parent_constraint: None,
        properties: vec![],
        components: None,
        structure: None,
    })
}

fn parented_type(name: &str, parent: Constraint) -> Declaration {
    Declaration::Type(TypeDecl {
        name: name.to_string(),
        parent_constraint: Some(parent),
        properties: vec![],
        components: None,
        structure: None,
    })
}

fn component_type(name: &str, comps: Vec<&str>) -> Declaration {
    Declaration::Type(TypeDecl {
        name: name.to_string(),
        parent_constraint: None,
        properties: vec![],
        components: Some(comps.into_iter().map(|c| c.to_string()).collect()),
        structure: None,
    })
}

fn behavior(name: &str, args: Vec<(&str, Constraint)>, ret: Constraint) -> Declaration {
    Declaration::Behavior(BehaviorDecl {
        name: name.to_string(),
        args: args
            .into_iter()
            .map(|(n, c)| TypedArg { name: n.to_string(), constraint: c })
            .collect(),
        return_type: ret,
    })
}

fn function(name: &str, params: Vec<(&str, Constraint)>, ret: Constraint) -> Declaration {
    Declaration::Function(FuncDecl {
        name: name.to_string(),
        params: params
            .into_iter()
            .map(|(n, c)| TypedArg { name: n.to_string(), constraint: c })
            .collect(),
        return_type: ret,
        body: vec![],
    })
}

fn flow(name: &str, body: Vec<FlowStmt>) -> Declaration {
    Declaration::Flow(FlowDecl { name: name.to_string(), body })
}

fn assign(target: &str, expr: Expr) -> FlowStmt {
    FlowStmt::Assignment { target: target.to_string(), expr }
}

fn ident(name: &str) -> Expr {
    Expr::Identifier(name.to_string())
}

fn call(name: &str, args: Vec<Expr>) -> Expr {
    Expr::Call {
        name: name.to_string(),
        args: args.into_iter().map(|value| ArgValue { name: None, value }).collect(),
    }
}

fn analyzer(decls: Vec<Declaration>) -> SemanticAnalyzer {
    let mut a = SemanticAnalyzer::new();
    for d in decls {
        a.register_declaration(d).expect("declaration registers");
    }
    a
}

fn constants_of(ctx: &Context) -> Vec<String> {
    ctx.graph
        .nodes
        .iter()
        .filter_map(|n| match n {
            ExecutionNode::Constant { value, .. } => Some(value.clone()),
            _ => None,
        })
        .collect()
}

fn sources_of(ctx: &Context) -> Vec<String> {
    ctx.graph
        .nodes
        .iter()
        .filter_map(|n| match n {
            ExecutionNode::Source { name, .. } => Some(name.clone()),
            _ => None,
        })
        .collect()
}

#[test]
fn trivial_flow_yields_one_universe_source() {
    let a = analyzer(vec![
        simple_type("Px"),
        flow("main", vec![assign("result", ident("Px"))]),
    ]);
    let sy = Synthesizer::new(&a.symbol_table);
    let contexts = sy.synthesize("main").expect("synthesis succeeds");
    assert_eq!(contexts.len(), 1);
    let ctx = &contexts[0];
    assert_eq!(ctx.graph.nodes.len(), 1);
    assert_eq!(
        ctx.graph.nodes[0],
        ExecutionNode::Source { name: "Universe(Px)".to_string(), type_tag: "Px".to_string() }
    );
    let result = ctx.get_var("result").expect("result is bound");
    assert_eq!(result.constraint_set, vec![vec![ty("Px")]]);
    assert_eq!(result.node_id, 0);
}

#[test]
fn union_variants_expand_into_constants() {
    let a = analyzer(vec![
        behavior("window", vec![], union(vec![atom("21"), atom("63")])),
        flow("main", vec![assign("result", call("window", vec![]))]),
    ]);
    let sy = Synthesizer::new(&a.symbol_table);
    let contexts = sy.synthesize("main").expect("synthesis succeeds");
    assert_eq!(contexts.len(), 2);
    // Branches come in declaration order: one constant per variant.
    let values: Vec<String> = contexts.iter().flat_map(|c| constants_of(c)).collect();
    assert_eq!(values, vec!["21".to_string(), "63".to_string()]);
}

#[test]
fn components_branch_into_distinct_universes() {
    let a = analyzer(vec![
        component_type("U", vec!["A", "B"]),
        flow("main", vec![assign("result", ident("U"))]),
    ]);
    let sy = Synthesizer::new(&a.symbol_table);
    let contexts = sy.synthesize("main").expect("synthesis succeeds");
    assert_eq!(contexts.len(), 2);
    let mut names: Vec<String> = contexts.iter().flat_map(|c| sources_of(c)).collect();
    names.sort();
    assert_eq!(names, vec!["Universe(A)".to_string(), "Universe(B)".to_string()]);
}

#[test]
fn subsumption_filters_candidates() {
    // `v` is known Series NonZero; the candidate whose parameter wants a
    // DataFrame is rejected, exactly one implementation survives.
    let a = analyzer(vec![
        simple_type("Series"),
        simple_type("NonZero"),
        simple_type("DataFrame"),
        parented_type("V", addition(vec![atom("Series"), atom("NonZero")])),
        behavior(
            "op",
            vec![("x", addition(vec![atom("Series"), atom("NonZero")]))],
            atom("Series"),
        ),
        function("good", vec![("x", addition(vec![atom("Series"), atom("NonZero")]))], atom("Series")),
        function("bad", vec![("x", atom("DataFrame"))], atom("Series")),
        flow(
            "main",
            vec![assign("v", ident("V")), assign("result", call("op", vec![ident("v")]))],
        ),
    ]);
    let sy = Synthesizer::new(&a.symbol_table);
    let contexts = sy.synthesize("main").expect("synthesis succeeds");
    assert_eq!(contexts.len(), 1);
    let ops: Vec<&ExecutionNode> = contexts[0]
        .graph
        .nodes
        .iter()
        .filter(|n| matches!(n, ExecutionNode::Operation { .. }))
        .collect();
    assert_eq!(ops.len(), 1);
    assert!(matches!(
        ops[0],
        ExecutionNode::Operation { op: OperatorOp::FunctionCall(n), .. } if n == "good"
    ));
}

#[test]
fn adding_a_failing_candidate_changes_nothing() {
    // The dispatcher's candidate set is exactly the functions that pass
    // both subsumption checks; one that fails either check is inert.
    let base = vec![
        simple_type("Series"),
        simple_type("NonZero"),
        simple_type("DataFrame"),
        parented_type("V", addition(vec![atom("Series"), atom("NonZero")])),
        behavior("op", vec![("x", atom("Series"))], atom("Series")),
        function("f", vec![("x", atom("Series"))], atom("Series")),
        function("g", vec![("x", atom("NonZero"))], atom("Series")),
        flow(
            "main",
            vec![assign("v", ident("V")), assign("result", call("op", vec![ident("v")]))],
        ),
    ];
    let mut extended = vec![
        // One candidate failing the parameter check, one failing the
        // return check.
        function("h", vec![("x", atom("DataFrame"))], atom("Series")),
        function("k", vec![("x", atom("Series"))], atom("DataFrame")),
    ];
    let a1 = analyzer(base.iter().map(clone_decl).collect());
    let mut decls2: Vec<Declaration> = base.iter().map(clone_decl).collect();
    decls2.append(&mut extended);
    let a2 = analyzer(decls2);
    let s1 = Synthesizer::new(&a1.symbol_table);
    let s2 = Synthesizer::new(&a2.symbol_table);
    let c1 = s1.synthesize("main").expect("synthesis succeeds");
    let c2 = s2.synthesize("main").expect("synthesis succeeds");
    assert_eq!(c1.len(), 2);
    assert_eq!(c2.len(), c1.len());
}

#[test]
fn three_dispatches_with_two_candidates_yield_eight_contexts() {
    let a = analyzer(vec![
        simple_type("D"),
        behavior("step", vec![("x", atom("D"))], atom("D")),
        function("s1", vec![("x", atom("D"))], atom("D")),
        function("s2", vec![("x", atom("D"))], atom("D")),
        flow(
            "main",
            vec![
                assign("a", ident("D")),
                assign("b", call("step", vec![ident("a")])),
                assign("c", call("step", vec![ident("b")])),
                assign("result", call("step", vec![ident("c")])),
            ],
        ),
    ]);
    let sy = Synthesizer::new(&a.symbol_table);
    let contexts = sy.synthesize("main").expect("synthesis succeeds");
    assert_eq!(contexts.len(), 8);
    // Every emitted graph is acyclic by construction: operations only
    // reference earlier node ids.
    for ctx in &contexts {
        for (i, n) in ctx.graph.nodes.iter().enumerate() {
            if let ExecutionNode::Operation { args, .. } = n {
                assert!(args.iter().all(|a| *a < i));
            }
        }
        assert!(!sources_of(ctx).is_empty());
    }
}

fn clone_decl(d: &Declaration) -> Declaration {
    match d {
        Declaration::Type(t) => Declaration::Type(TypeDecl {
            name: t.name.clone(),
            parent_constraint: t.parent_constraint.as_ref().map(clone_constraint),
            properties: t.properties.clone(),
            components: t.components.clone(),
            structure: t.structure.clone(),
        }),
        Declaration::Behavior(b) => Declaration::Behavior(BehaviorDecl {
            name: b.name.clone(),
            args: b.args.iter().map(clone_arg).collect(),
            return_type: clone_constraint(&b.return_type),
        }),
        Declaration::Function(f) => Declaration::Function(FuncDecl {
            name: f.name.clone(),
            params: f.params.iter().map(clone_arg).collect(),
            return_type: clone_constraint(&f.return_type),
            body: vec![],
        }),
        Declaration::Flow(f) => Declaration::Flow(FlowDecl {
            name: f.name.clone(),
            body: f.body.iter().map(clone_stmt).collect(),
        }),
        Declaration::Import(i) => {
            Declaration::Import(comet::ast::Import { path: i.path.clone() })
        }
    }
}

fn clone_arg(a: &TypedArg) -> TypedArg {
    TypedArg { name: a.name.clone(), constraint: clone_constraint(&a.constraint) }
}

fn clone_constraint(c: &Constraint) -> Constraint {
    match c {
        Constraint::Atom(n) => Constraint::Atom(n.clone()),
        Constraint::Addition(cs) => {
            Constraint::Addition(cs.iter().map(clone_constraint).collect())
        }
        Constraint::Union(cs) => Constraint::Union(cs.iter().map(clone_constraint).collect()),
        Constraint::Subtraction(l, r) => Constraint::Subtraction(
            Box::new(clone_constraint(l)),
            Box::new(clone_constraint(r)),
        ),
    }
}

fn clone_stmt(s: &FlowStmt) -> FlowStmt {
    match s {
        FlowStmt::Assignment { target, expr } => {
            FlowStmt::Assignment { target: target.clone(), expr: clone_expr(expr) }
        }
        FlowStmt::Return(e) => FlowStmt::Return(clone_expr(e)),
    }
}

fn clone_expr(e: &Expr) -> Expr {
    match e {
        Expr::Literal(l) => Expr::Literal(match l {
            comet::ast::Literal::Integer(i) => comet::ast::Literal::Integer(*i),
            comet::ast::Literal::Text(t) => comet::ast::Literal::Text(t.clone()),
            comet::ast::Literal::Boolean(b) => comet::ast::Literal::Boolean(*b),
        }),
        Expr::Identifier(n) => Expr::Identifier(n.clone()),
        Expr::Call { name, args } => Expr::Call {
            name: name.clone(),
            args: args
                .iter()
                .map(|a| ArgValue { name: a.name.clone(), value: clone_expr(&a.value) })
                .collect(),
        },
        Expr::BinaryOp { left, op, right } => Expr::BinaryOp {
            left: Box::new(clone_expr(left)),
            op: *op,
            right: Box::new(clone_expr(right)),
        },
    }
}

#[test]
fn missing_flow_is_reported() {
    let a = analyzer(vec![simple_type("Px")]);
    let sy = Synthesizer::new(&a.symbol_table);
    let r = sy.synthesize("nowhere");
    assert!(matches!(r, Err(SynthesisError::FlowNotFound(n)) if n == "nowhere"));
}

#[test]
fn unknown_identifier_is_reported() {
    let a = analyzer(vec![flow("main", vec![assign("result", ident("ghostly"))])]);
    let sy = Synthesizer::new(&a.symbol_table);
    let r = sy.synthesize("main");
    assert!(matches!(r, Err(SynthesisError::VariableNotFound(n)) if n == "ghostly"));
}

#[test]
fn unmatched_call_reports_no_implementation() {
    let a = analyzer(vec![
        simple_type("Series"),
        behavior("op", vec![("x", atom("NonZero"))], atom("Series")),
        flow(
            "main",
            vec![assign("v", ident("Series")), assign("result", call("op", vec![ident("v")]))],
        ),
    ]);
    let sy = Synthesizer::new(&a.symbol_table);
    let r = sy.synthesize("main");
    assert!(matches!(r, Err(SynthesisError::NoImplFound(n)) if n == "op"));
}

#[test]
fn self_referential_flow_hits_recursion_limit() {
    let a = analyzer(vec![flow("main", vec![assign("result", ident("main"))])]);
    let sy = Synthesizer::new(&a.symbol_table);
    let r = sy.synthesize("main");
    assert!(matches!(r, Err(SynthesisError::RecursionLimitExceeded(_))));
}

#[test]
fn flow_reference_imports_result() {
    let a = analyzer(vec![
        simple_type("Px"),
        flow("inner", vec![assign("result", ident("Px"))]),
        flow("main", vec![assign("result", ident("inner"))]),
    ]);
    let sy = Synthesizer::new(&a.symbol_table);
    let contexts = sy.synthesize("main").expect("synthesis succeeds");
    assert_eq!(contexts.len(), 1);
    assert_eq!(sources_of(&contexts[0]), vec!["FlowResult(inner)".to_string()]);
    let result = contexts[0].get_var("result").expect("result bound");
    assert_eq!(result.constraint_set, vec![vec![ty("Px")]]);
}

#[test]
fn return_statement_binds_result() {
    let a = analyzer(vec![
        simple_type("Px"),
        flow("main", vec![FlowStmt::Return(ident("Px"))]),
    ]);
    let sy = Synthesizer::new(&a.symbol_table);
    let contexts = sy.synthesize("main").expect("synthesis succeeds");
    assert_eq!(contexts.len(), 1);
    assert!(contexts[0].get_var("result").is_some());
}

#[test]
fn binary_operator_dispatches_to_behavior() {
    let a = analyzer(vec![
        simple_type("Series"),
        behavior(
            "divide",
            vec![("a", atom("Series")), ("b", atom("Series"))],
            atom("Series"),
        ),
        function(
            "ratio",
            vec![("a", atom("Series")), ("b", atom("Series"))],
            atom("Series"),
        ),
        flow(
            "main",
            vec![
                assign("x", ident("Series")),
                assign("y", ident("Series")),
                assign(
                    "result",
                    Expr::BinaryOp {
                        left: Box::new(ident("x")),
                        op: comet::ast::Op::Div,
                        right: Box::new(ident("y")),
                    },
                ),
            ],
        ),
    ]);
    let sy = Synthesizer::new(&a.symbol_table);
    let contexts = sy.synthesize("main").expect("synthesis succeeds");
    assert_eq!(contexts.len(), 1);
    let ops: Vec<&ExecutionNode> = contexts[0]
        .graph
        .nodes
        .iter()
        .filter(|n| matches!(n, ExecutionNode::Operation { .. }))
        .collect();
    assert_eq!(ops.len(), 1);
    assert!(matches!(
        ops[0],
        ExecutionNode::Operation { op: OperatorOp::FunctionCall(n), args } if n == "ratio" && args.len() == 2
    ));
}

#[test]
fn named_argument_binds_by_parameter_name() {
    let a = analyzer(vec![
        simple_type("Series"),
        simple_type("Window"),
        behavior(
            "roll",
            vec![("data", atom("Series")), ("window", atom("Window"))],
            atom("Series"),
        ),
        function(
            "rolled",
            vec![("data", atom("Series")), ("window", atom("Window"))],
            atom("Series"),
        ),
        flow(
            "main",
            vec![
                assign("s", ident("Series")),
                assign("w", ident("Window")),
                assign(
                    "result",
                    Expr::Call {
                        name: "roll".to_string(),
                        args: vec![
                            ArgValue {
                                name: Some("window".to_string()),
                                value: ident("w"),
                            },
                            ArgValue { name: None, value: ident("s") },
                        ],
                    },
                ),
            ],
        ),
    ]);
    let sy = Synthesizer::new(&a.symbol_table);
    let contexts = sy.synthesize("main").expect("synthesis succeeds");
    assert_eq!(contexts.len(), 1);
}

#[test]
fn literal_becomes_constant_node() {
    let a = analyzer(vec![flow(
        "main",
        vec![assign("result", Expr::Literal(comet::ast::Literal::Integer(42)))],
    )]);
    let sy = Synthesizer::new(&a.symbol_table);
    let contexts = sy.synthesize("main").expect("synthesis succeeds");
    assert_eq!(contexts.len(), 1);
    assert_eq!(constants_of(&contexts[0]), vec!["42".to_string()]);
    let r = contexts[0].get_var("result").expect("result bound");
    assert_eq!(r.constraint_set, vec![vec![ty("Constant")]]);
}

#[test]
fn empty_flow_reference_fails_cleanly() {
    let a = analyzer(vec![
        flow("inner", vec![]),
        flow("main", vec![assign("result", ident("inner"))]),
    ]);
    let sy = Synthesizer::new(&a.symbol_table);
    let r = sy.synthesize("main");
    assert!(matches!(r, Err(SynthesisError::ConstraintFailed(_))));
}

#[test]
fn zero_arity_call_reaches_a_flow() {
    let a = analyzer(vec![
        simple_type("Px"),
        flow("inner", vec![assign("result", ident("Px"))]),
        flow("main", vec![assign("result", call("inner", vec![]))]),
    ]);
    let sy = Synthesizer::new(&a.symbol_table);
    let contexts = sy.synthesize("main").expect("synthesis succeeds");
    assert_eq!(contexts.len(), 1);
    assert_eq!(sources_of(&contexts[0]), vec!["FlowResult(inner)".to_string()]);
}

#[test]
fn surplus_named_argument_is_a_match_failure() {
    let a = analyzer(vec![
        simple_type("Series"),
        behavior("op", vec![("x", atom("Series"))], atom("Series")),
        function("f", vec![("x", atom("Series"))], atom("Series")),
        flow(
            "main",
            vec![
                assign("v", ident("Series")),
                assign(
                    "result",
                    Expr::Call {
                        name: "op".to_string(),
                        args: vec![ArgValue {
                            name: Some("y".to_string()),
                            value: ident("v"),
                        }],
                    },
                ),
            ],
        ),
    ]);
    let sy = Synthesizer::new(&a.symbol_table);
    let r = sy.synthesize("main");
    assert!(matches!(r, Err(SynthesisError::NoImplFound(_))));
}

#[test]
fn arity_mismatch_is_a_match_failure() {
    let a = analyzer(vec![
        simple_type("Series"),
        behavior("op", vec![("x", atom("Series"))], atom("Series")),
        function("f", vec![("x", atom("Series"))], atom("Series")),
        flow(
            "main",
            vec![
                assign("v", ident("Series")),
                assign("result", call("op", vec![ident("v"), ident("v")])),
            ],
        ),
    ]);
    let sy = Synthesizer::new(&a.symbol_table);
    let r = sy.synthesize("main");
    assert!(matches!(r, Err(SynthesisError::NoImplFound(_))));
}

#[test]
fn variants_are_not_collected_under_subtraction() {
    let a = analyzer(vec![
        simple_type("Series"),
        behavior(
            "pick",
            vec![],
            Constraint::Subtraction(
                Box::new(union(vec![atom("21"), atom("63")])),
                Box::new(atom("63")),
            ),
        ),
        flow("main", vec![assign("result", call("pick", vec![]))]),
    ]);
    let sy = Synthesizer::new(&a.symbol_table);
    // The whole return type is a subtraction, so no variant constants
    // are materialized and the call has no candidates at all.
    let r = sy.synthesize("main");
    assert!(matches!(r, Err(SynthesisError::NoImplFound(_))));
}

#[test]
fn behavior_beats_plain_function_of_same_name() {
    // A name that is both a behavior and a function dispatches as the
    // behavior; the function of the same name is reached through it.
    let a = analyzer(vec![
        simple_type("Series"),
        behavior("op", vec![("x", atom("Series"))], atom("Series")),
        function("op", vec![("x", atom("Series"))], atom("Series")),
        flow(
            "main",
            vec![assign("v", ident("Series")), assign("result", call("op", vec![ident("v")]))],
        ),
    ]);
    let sy = Synthesizer::new(&a.symbol_table);
    let contexts = sy.synthesize("main").expect("synthesis succeeds");
    assert_eq!(contexts.len(), 1);
    assert!(matches!(
        contexts[0].graph.nodes.last().expect("op node"),
        ExecutionNode::Operation { op: OperatorOp::FunctionCall(n), .. } if n == "op"
    ));
}

#[test]
fn inherited_properties_satisfy_return_requirements() {
    // `tidy` returns T, and T's parent grants Clean transitively; the
    // behavior demands a Clean result, so the fully expanded return of
    // `tidy` must be what lets it qualify.
    let a = analyzer(vec![
        simple_type("Series"),
        simple_type("Clean"),
        parented_type("T", addition(vec![atom("Series"), atom("Clean")])),
        behavior("scrub", vec![("x", atom("Series"))], atom("Clean")),
        function("tidy", vec![("x", atom("Series"))], atom("T")),
        flow(
            "main",
            vec![
                assign("v", ident("Series")),
                assign("result", call("scrub", vec![ident("v")])),
            ],
        ),
    ]);
    let sy = Synthesizer::new(&a.symbol_table);
    let contexts = sy.synthesize("main").expect("synthesis succeeds");
    assert_eq!(contexts.len(), 1);
    let result = contexts[0].get_var("result").expect("result bound");
    // The emitted constraint set carries the full closure of T's chain.
    assert_eq!(result.constraint_set, vec![vec![ty("Clean"), ty("Series"), ty("T")]]);
}

#[test]
fn components_and_candidates_multiply() {
    // Two component universes times two candidate implementations give
    // four contexts: the engine enumerates the whole surface.
    let a = analyzer(vec![
        simple_type("A"),
        simple_type("B"),
        component_type("U", vec!["A", "B"]),
        behavior("step", vec![("x", union(vec![atom("A"), atom("B")]))], atom("A")),
        function("s1", vec![("x", union(vec![atom("A"), atom("B")]))], atom("A")),
        function("s2", vec![("x", union(vec![atom("A"), atom("B")]))], atom("A")),
        flow(
            "main",
            vec![assign("u", ident("U")), assign("result", call("step", vec![ident("u")]))],
        ),
    ]);
    let sy = Synthesizer::new(&a.symbol_table);
    let contexts = sy.synthesize("main").expect("synthesis succeeds");
    assert_eq!(contexts.len(), 4);
}

#[test]
fn variants_come_from_union_positions_only() {
    let a = analyzer(vec![simple_type("Series")]);
    let sy = Synthesizer::new(&a.symbol_table);
    // A bare atom return is a requirement, not a variant.
    assert_eq!(sy.collect_variants(&atom("21")), Vec::<String>::new());
    // Atoms directly under a union are variants, declared types are not.
    assert_eq!(
        sy.collect_variants(&union(vec![atom("Series"), atom("21"), atom("63")])),
        vec!["21".to_string(), "63".to_string()]
    );
    // A union nested inside an intersection still contributes; the
    // intersection's own atoms do not.
    assert_eq!(
        sy.collect_variants(&addition(vec![atom("21"), union(vec![atom("63")])])),
        vec!["63".to_string()]
    );
    // Subtraction contributes none.
    assert_eq!(
        sy.collect_variants(&Constraint::Subtraction(
            Box::new(union(vec![atom("21"), atom("63")])),
            Box::new(atom("63")),
        )),
        Vec::<String>::new()
    );
}

#[test]
fn bare_atom_return_yields_no_constant() {
    let a = analyzer(vec![
        behavior("window", vec![], atom("21")),
        flow("main", vec![assign("result", call("window", vec![]))]),
    ]);
    let sy = Synthesizer::new(&a.symbol_table);
    let r = sy.synthesize("main");
    assert!(matches!(r, Err(SynthesisError::NoImplFound(n)) if n == "window"));
}

#[test]
fn empty_behavior_falls_back_to_direct_function() {
    // The behavior's arguments match but no function subsumes its
    // return and it has no variants, so the dispatcher falls through to
    // the direct function of the same name.
    let a = analyzer(vec![
        simple_type("Series"),
        simple_type("Exotic"),
        behavior("op", vec![("x", atom("Series"))], atom("Exotic")),
        function("op", vec![("x", atom("Series"))], atom("Series")),
        flow(
            "main",
            vec![assign("v", ident("Series")), assign("result", call("op", vec![ident("v")]))],
        ),
    ]);
    let sy = Synthesizer::new(&a.symbol_table);
    let contexts = sy.synthesize("main").expect("synthesis succeeds");
    assert_eq!(contexts.len(), 1);
    assert!(matches!(
        contexts[0].graph.nodes.last().expect("call node"),
        ExecutionNode::Operation { op: OperatorOp::FunctionCall(n), .. } if n == "op"
    ));
    let r = contexts[0].get_var("result").expect("result bound");
    assert_eq!(r.constraint_set, vec![vec![ty("Series")]]);
}

#[test]
fn flow_call_without_result_fails_cleanly() {
    // A referenced flow yielding a context without a `result` binding is
    // a hard error on the call path, as on the identifier path.
    let a = analyzer(vec![
        flow("inner", vec![]),
        flow("main", vec![assign("result", call("inner", vec![]))]),
    ]);
    let sy = Synthesizer::new(&a.symbol_table);
    let r = sy.synthesize("main");
    assert!(matches!(r, Err(SynthesisError::ConstraintFailed(_))));
}

#[test]
fn mutually_recursive_flows_are_rejected() {
    let a = analyzer(vec![
        flow("ping", vec![assign("result", ident("pong"))]),
        flow("pong", vec![assign("result", ident("ping"))]),
    ]);
    let sy = Synthesizer::new(&a.symbol_table);
    let r = sy.synthesize("ping");
    assert!(matches!(r, Err(SynthesisError::RecursionLimitExceeded(_))));
}
