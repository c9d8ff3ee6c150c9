//! The symbol table: the declarations of an analysis run, each kind
//! unique by name, plus the registry of loaded source paths.

use vstd::prelude::*;
use crate::ast::{Constraint, FlowStmt};

verus! {

/// A registered type: its parent constraint, granted properties and
/// optional component sub-universes.
#[derive(Debug)]
pub struct TypeInfo {
    pub name: String,
    pub parent_constraint: Option<Constraint>,
    pub properties: Vec<String>,
    pub components: Option<Vec<String>>,
    pub structure: Option<String>,
}

/// One formal parameter with its constraint.
#[derive(Debug)]
pub struct ParamInfo {
    pub name: String,
    pub constraint: Constraint,
}

/// A registered behavior: an abstract operation with a polymorphic
/// contract.
#[derive(Debug)]
pub struct BehaviorInfo {
    pub name: String,
    pub args: Vec<ParamInfo>,
    pub return_type: Constraint,
}

/// A registered concrete function.
#[derive(Debug)]
pub struct FuncInfo {
    pub name: String,
    pub params: Vec<ParamInfo>,
    pub return_type: Constraint,
}

/// A registered flow: a named pipeline body.
#[derive(Debug)]
pub struct FlowInfo {
    pub name: String,
    pub body: Vec<FlowStmt>,
}

/// Whether some registered type carries this name.
pub open spec fn has_type(ts: Seq<TypeInfo>, name: Seq<char>) -> bool {
    exists|i: int| 0 <= i < ts.len() && (#[trigger] ts[i]).name@ == name
}

/// Whether some registered behavior carries this name.
pub open spec fn has_behavior(bs: Seq<BehaviorInfo>, name: Seq<char>) -> bool {
    exists|i: int| 0 <= i < bs.len() && (#[trigger] bs[i]).name@ == name
}

/// Whether some registered function carries this name.
pub open spec fn has_function(fs: Seq<FuncInfo>, name: Seq<char>) -> bool {
    exists|i: int| 0 <= i < fs.len() && (#[trigger] fs[i]).name@ == name
}

/// Whether some registered flow carries this name.
pub open spec fn has_flow(fs: Seq<FlowInfo>, name: Seq<char>) -> bool {
    exists|i: int| 0 <= i < fs.len() && (#[trigger] fs[i]).name@ == name
}

/// The declarations of one analysis run, each kind unique by name.
#[derive(Debug)]
pub struct SymbolTable {
    pub types: Vec<TypeInfo>,
    pub behaviors: Vec<BehaviorInfo>,
    pub functions: Vec<FuncInfo>,
    pub flows: Vec<FlowInfo>,
}

impl SymbolTable {
    /// Within one run each kind is unique by name.
    pub open spec fn wf(&self) -> bool {
        &&& forall|i: int, j: int|
            0 <= i < j < self.types@.len() ==> (#[trigger] self.types@[i]).name@ != (
            #[trigger] self.types@[j]).name@
        &&& forall|i: int, j: int|
            0 <= i < j < self.behaviors@.len() ==> (#[trigger] self.behaviors@[i]).name@ != (
            #[trigger] self.behaviors@[j]).name@
        &&& forall|i: int, j: int|
            0 <= i < j < self.functions@.len() ==> (#[trigger] self.functions@[i]).name@ != (
            #[trigger] self.functions@[j]).name@
        &&& forall|i: int, j: int|
            0 <= i < j < self.flows@.len() ==> (#[trigger] self.flows@[i]).name@ != (
            #[trigger] self.flows@[j]).name@
    }

    /// The empty table.
    pub fn new() -> (t: SymbolTable)
        ensures
            t.types@ =~= Seq::<TypeInfo>::empty(),
            t.behaviors@ =~= Seq::<BehaviorInfo>::empty(),
            t.functions@ =~= Seq::<FuncInfo>::empty(),
            t.flows@ =~= Seq::<FlowInfo>::empty(),
            t.wf(),
    {
        SymbolTable {
            types: Vec::new(),
            behaviors: Vec::new(),
            functions: Vec::new(),
            flows: Vec::new(),
        }
    }

    /// The registered type of this name, if any.
    pub fn get_type(&self, name: &str) -> (r: Option<&TypeInfo>)
        ensures
            match r {
                Some(t) => t.name@ == name@ && exists|i: int|
                    0 <= i < self.types@.len() && *t == #[trigger] self.types@[i],
                None => !has_type(self.types@, name@),
            },
    {
        let mut i: usize = 0;
        while i < self.types.len()
            invariant
                i <= self.types@.len(),
                forall|k: int| 0 <= k < i ==> (#[trigger] self.types@[k]).name@ != name@,
            decreases self.types@.len() - i,
        {
            if crate::constraints::str_eq(self.types[i].name.as_str(), name) {
                return Some(&self.types[i]);
            }
            i = i + 1;
        }
        None
    }

    /// The registered behavior of this name, if any.
    pub fn get_behavior(&self, name: &str) -> (r: Option<&BehaviorInfo>)
        ensures
            match r {
                Some(b) => b.name@ == name@ && exists|i: int|
                    0 <= i < self.behaviors@.len() && *b == #[trigger] self.behaviors@[i],
                None => !has_behavior(self.behaviors@, name@),
            },
    {
        let mut i: usize = 0;
        while i < self.behaviors.len()
            invariant
                i <= self.behaviors@.len(),
                forall|k: int| 0 <= k < i ==> (#[trigger] self.behaviors@[k]).name@ != name@,
            decreases self.behaviors@.len() - i,
        {
            if crate::constraints::str_eq(self.behaviors[i].name.as_str(), name) {
                return Some(&self.behaviors[i]);
            }
            i = i + 1;
        }
        None
    }

    /// The registered function of this name, if any.
    pub fn get_function(&self, name: &str) -> (r: Option<&FuncInfo>)
        ensures
            match r {
                Some(f) => f.name@ == name@ && exists|i: int|
                    0 <= i < self.functions@.len() && *f == #[trigger] self.functions@[i],
                None => !has_function(self.functions@, name@),
            },
    {
        let mut i: usize = 0;
        while i < self.functions.len()
            invariant
                i <= self.functions@.len(),
                forall|k: int| 0 <= k < i ==> (#[trigger] self.functions@[k]).name@ != name@,
            decreases self.functions@.len() - i,
        {
            if crate::constraints::str_eq(self.functions[i].name.as_str(), name) {
                return Some(&self.functions[i]);
            }
            i = i + 1;
        }
        None
    }

    /// The registered flow of this name, if any.
    pub fn get_flow(&self, name: &str) -> (r: Option<&FlowInfo>)
        ensures
            match r {
                Some(f) => f.name@ == name@ && exists|i: int|
                    0 <= i < self.flows@.len() && *f == #[trigger] self.flows@[i],
                None => !has_flow(self.flows@, name@),
            },
    {
        let mut i: usize = 0;
        while i < self.flows.len()
            invariant
                i <= self.flows@.len(),
                forall|k: int| 0 <= k < i ==> (#[trigger] self.flows@[k]).name@ != name@,
            decreases self.flows@.len() - i,
        {
            if crate::constraints::str_eq(self.flows[i].name.as_str(), name) {
                return Some(&self.flows[i]);
            }
            i = i + 1;
        }
        None
    }
}

} // verus!
