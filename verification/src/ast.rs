//! Abstract syntax of the source language: programs, declarations,
//! constraints, expressions and flow statements.

use vstd::prelude::*;

verus! {

/// A syntactic type constraint: a tree of named atoms combined by
/// intersection (`Addition`), alternation (`Union`) and `Subtraction`.
#[derive(Debug)]
pub enum Constraint {
    Atom(String),
    Addition(Vec<Constraint>),
    Union(Vec<Constraint>),
    Subtraction(Box<Constraint>, Box<Constraint>),
}

/// The mathematical shape of a [`Constraint`]: the same tree with
/// strings abstracted to character sequences.
pub enum ConstraintV {
    Atom(Seq<char>),
    Addition(Seq<ConstraintV>),
    Union(Seq<ConstraintV>),
    Subtraction(Box<ConstraintV>, Box<ConstraintV>),
}

/// The views of the first `n` constraints of `cs`, in order.
pub open spec fn views_of(cs: Seq<Constraint>, n: int) -> Seq<ConstraintV>
    decreases cs, n,
{
    if n <= 0 || n > cs.len() {
        Seq::empty()
    } else {
        views_of(cs, n - 1).push(cs[n - 1]@)
    }
}

impl View for Constraint {
    type V = ConstraintV;

    open spec fn view(&self) -> ConstraintV
        decreases self, 1int,
    {
        match self {
            Constraint::Atom(name) => ConstraintV::Atom(name@),
            Constraint::Addition(cs) => ConstraintV::Addition(views_of(cs@, cs@.len() as int)),
            Constraint::Union(cs) => ConstraintV::Union(views_of(cs@, cs@.len() as int)),
            Constraint::Subtraction(lhs, rhs) => ConstraintV::Subtraction(
                Box::new((**lhs)@),
                Box::new((**rhs)@),
            ),
        }
    }
}

/// A source unit: its declarations in order.
#[derive(Debug)]
pub struct Program {
    pub declarations: Vec<Declaration>,
}

/// A reference to another source unit, by module path.
#[derive(Debug)]
pub struct Import {
    pub path: String,
}

/// One top-level declaration of a source unit.
#[derive(Debug)]
pub enum Declaration {
    Import(Import),
    Type(TypeDecl),
    Behavior(BehaviorDecl),
    Function(FuncDecl),
    Flow(FlowDecl),
}

/// A typed universe of data: an optional parent constraint, the
/// property atoms the type grants, and optional component sub-universes.
#[derive(Debug)]
pub struct TypeDecl {
    pub name: String,
    pub parent_constraint: Option<Constraint>,
    pub properties: Vec<String>,
    pub components: Option<Vec<String>>,
    pub structure: Option<String>,
}

/// An abstract polymorphic operation: a contract over constraints.
#[derive(Debug)]
pub struct BehaviorDecl {
    pub name: String,
    pub args: Vec<TypedArg>,
    pub return_type: Constraint,
}

/// One formal argument with the constraint it demands.
#[derive(Debug)]
pub struct TypedArg {
    pub name: String,
    pub constraint: Constraint,
}

/// A concrete function: a candidate implementation for the behaviors
/// whose signatures it subsumes.
#[derive(Debug)]
pub struct FuncDecl {
    pub name: String,
    pub params: Vec<TypedArg>,
    pub return_type: Constraint,
    pub body: Vec<FlowStmt>,
}

/// A named pipeline: the unit of synthesis.
#[derive(Debug)]
pub struct FlowDecl {
    pub name: String,
    pub body: Vec<FlowStmt>,
}

/// One statement of a flow body.
#[derive(Debug)]
pub enum FlowStmt {
    Assignment { target: String, expr: Expr },
    Return(Expr),
}

/// An expression of a flow statement.
#[derive(Debug)]
pub enum Expr {
    Literal(Literal),
    Identifier(String),
    Call { name: String, args: Vec<ArgValue> },
    BinaryOp { left: Box<Expr>, op: Op, right: Box<Expr> },
}

/// One actual argument of a call, positional or named.
#[derive(Debug)]
pub struct ArgValue {
    pub name: Option<String>,
    pub value: Expr,
}

/// A binary operator; the arithmetic ones are sugar for behavior calls.
#[derive(Debug, Clone, Copy, PartialEq, Eq, Structural)]
pub enum Op {
    Add,
    Sub,
    Mul,
    Div,
    Eq,
    Neq,
    Lt,
    Gt,
    And,
    Or,
}

/// A literal value of a flow expression.
#[derive(Debug)]
pub enum Literal {
    Integer(i64),
    Text(String),
    Boolean(bool),
}

/// Each position of `views_of` is the view of the constraint at that
/// position.
pub broadcast proof fn lemma_views_of(cs: Seq<Constraint>, n: int)
    requires
        0 <= n <= cs.len(),
    ensures
        (#[trigger] views_of(cs, n)).len() == n,
        forall|i: int| 0 <= i < n ==> views_of(cs, n)[i] == cs[i]@,
    decreases n,
{
    if n > 0 {
        lemma_views_of(cs, n - 1);
        assert(views_of(cs, n) == views_of(cs, n - 1).push(cs[n - 1]@));
    } else {
        assert(views_of(cs, n) == Seq::<ConstraintV>::empty());
    }
}

} // verus!
