//! The single-pass registrar: populates the symbol table from
//! declarations, rejecting duplicates within each kind, and keeps the
//! registry of already-loaded source paths so every unit is analyzed
//! once.  Reading and parsing imported units is the embedding driver's
//! work; it hands each parsed declaration back to the registrar.

use vstd::prelude::*;
use crate::ast::Declaration;
use crate::symbols::{
    SymbolTable,
    TypeInfo,
    BehaviorInfo,
    FuncInfo,
    FlowInfo,
    ParamInfo,
    has_type,
    has_behavior,
    has_function,
    has_flow,
};

verus! {

/// What can go wrong while the symbol table is populated.  The last
/// two kinds belong to the embedding driver, which resolves imports and
/// reads files; the registrar itself raises only the duplicates.
#[derive(Debug)]
pub enum SemanticError {
    DuplicateType(String),
    DuplicateBehavior(String),
    DuplicateFunction(String),
    DuplicateFlow(String),
    UnknownType(String),
    ImportError(String),
}

/// Populates a [`SymbolTable`] declaration by declaration and remembers
/// which source paths were already loaded.
#[derive(Debug)]
pub struct SemanticAnalyzer {
    pub symbol_table: SymbolTable,
    pub loaded_files: Vec<String>,
}

/// Whether a canonical path is already in the registry.
pub open spec fn path_loaded(paths: Seq<String>, path: Seq<char>) -> bool {
    exists|i: int| 0 <= i < paths.len() && (#[trigger] paths[i])@ == path
}

impl SemanticAnalyzer {
    /// A fresh analyzer: empty table, no loaded paths.
    pub fn new() -> (a: SemanticAnalyzer)
        ensures
            a.symbol_table.types@ =~= Seq::<TypeInfo>::empty(),
            a.symbol_table.behaviors@ =~= Seq::<BehaviorInfo>::empty(),
            a.symbol_table.functions@ =~= Seq::<FuncInfo>::empty(),
            a.symbol_table.flows@ =~= Seq::<FlowInfo>::empty(),
            a.symbol_table.wf(),
            a.loaded_files@ =~= Seq::<String>::empty(),
    {
        SemanticAnalyzer { symbol_table: SymbolTable::new(), loaded_files: Vec::new() }
    }

    /// Records a canonicalized source path.  Returns `true` when the
    /// path is new — its unit must then be analyzed — and `false` when
    /// it was already loaded, so the unit is skipped and the registry
    /// is unchanged.
    pub fn register_source(&mut self, path: String) -> (fresh: bool)
        ensures
            fresh == !path_loaded(old(self).loaded_files@, path@),
            fresh ==> final(self).loaded_files@ == old(self).loaded_files@.push(path),
            !fresh ==> final(self).loaded_files@ == old(self).loaded_files@,
            final(self).symbol_table == old(self).symbol_table,
    {
        let mut i: usize = 0;
        while i < self.loaded_files.len()
            invariant
                i <= self.loaded_files@.len(),
                forall|k: int| 0 <= k < i ==> (#[trigger] self.loaded_files@[k])@ != path@,
            decreases self.loaded_files@.len() - i,
        {
            if crate::constraints::str_eq(self.loaded_files[i].as_str(), path.as_str()) {
                return false;
            }
            i = i + 1;
        }
        self.loaded_files.push(path);
        true
    }

    /// Registers one declaration.  A name already taken within its kind
    /// is a hard error naming the duplicate, and leaves the table
    /// unchanged; otherwise the declaration is appended to its kind.
    /// Imports carry no symbol and leave the table unchanged: the
    /// driver resolves them through [`Self::register_source`].
    pub fn register_declaration(&mut self, decl: Declaration) -> (r: Result<(), SemanticError>)
        ensures
            final(self).loaded_files@ == old(self).loaded_files@,
            old(self).symbol_table.wf() ==> final(self).symbol_table.wf(),
            (match decl {
                Declaration::Import(_) => r is Ok && final(self).symbol_table == old(self).symbol_table,
                Declaration::Type(d) => {
                    let pre = old(self).symbol_table;
                    let post = final(self).symbol_table;
                    if has_type(pre.types@, d.name@) {
                        &&& (r matches Err(SemanticError::DuplicateType(n)) && n@ == d.name@)
                        &&& post == pre
                    } else {
                        &&& r is Ok
                        &&& post.types@ == pre.types@.push((TypeInfo {
                            name: d.name,
                            parent_constraint: d.parent_constraint,
                            properties: d.properties,
                            components: d.components,
                            structure: d.structure,
                        }))
                        &&& post.behaviors@ == pre.behaviors@
                        &&& post.functions@ == pre.functions@
                        &&& post.flows@ == pre.flows@
                    }
                },
                Declaration::Behavior(d) => {
                    let pre = old(self).symbol_table;
                    let post = final(self).symbol_table;
                    if has_behavior(pre.behaviors@, d.name@) {
                        &&& (r matches Err(SemanticError::DuplicateBehavior(n)) && n@ == d.name@)
                        &&& post == pre
                    } else {
                        &&& r is Ok
                        &&& post.behaviors@.len() == pre.behaviors@.len() + 1
                        &&& post.behaviors@.last().name@ == d.name@
                        &&& post.behaviors@.last().args@.len() == d.args@.len()
                        &&& (forall|k: int|
                            0 <= k < d.args@.len() ==> post.behaviors@.last().args@[k].name == (#[trigger] d.args@[k]).name
                                && post.behaviors@.last().args@[k].constraint == d.args@[k].constraint)
                        &&& post.behaviors@.last().return_type == d.return_type
                        &&& post.behaviors@.take(pre.behaviors@.len() as int) == pre.behaviors@
                        &&& post.types@ == pre.types@
                        &&& post.functions@ == pre.functions@
                        &&& post.flows@ == pre.flows@
                    }
                },
                Declaration::Function(d) => {
                    let pre = old(self).symbol_table;
                    let post = final(self).symbol_table;
                    if has_function(pre.functions@, d.name@) {
                        &&& (r matches Err(SemanticError::DuplicateFunction(n)) && n@ == d.name@)
                        &&& post == pre
                    } else {
                        &&& r is Ok
                        &&& post.functions@.len() == pre.functions@.len() + 1
                        &&& post.functions@.last().name@ == d.name@
                        &&& post.functions@.last().params@.len() == d.params@.len()
                        &&& (forall|k: int|
                            0 <= k < d.params@.len() ==> post.functions@.last().params@[k].name == (#[trigger] d.params@[k]).name
                                && post.functions@.last().params@[k].constraint == d.params@[k].constraint)
                        &&& post.functions@.last().return_type == d.return_type
                        &&& post.functions@.take(pre.functions@.len() as int) == pre.functions@
                        &&& post.types@ == pre.types@
                        &&& post.behaviors@ == pre.behaviors@
                        &&& post.flows@ == pre.flows@
                    }
                },
                Declaration::Flow(d) => {
                    let pre = old(self).symbol_table;
                    let post = final(self).symbol_table;
                    if has_flow(pre.flows@, d.name@) {
                        &&& (r matches Err(SemanticError::DuplicateFlow(n)) && n@ == d.name@)
                        &&& post == pre
                    } else {
                        &&& r is Ok
                        &&& post.flows@ == pre.flows@.push((FlowInfo { name: d.name, body: d.body }))
                        &&& post.types@ == pre.types@
                        &&& post.behaviors@ == pre.behaviors@
                        &&& post.functions@ == pre.functions@
                    }
                },
            }),
    {
        match decl {
            Declaration::Import(_) => Ok(()),
            Declaration::Type(d) => {
                if self.symbol_table.get_type(d.name.as_str()).is_some() {
                    return Err(SemanticError::DuplicateType(d.name));
                }
                let ghost pre = self.symbol_table.types@;
                self.symbol_table.types.push(
                    TypeInfo {
                        name: d.name,
                        parent_constraint: d.parent_constraint,
                        properties: d.properties,
                        components: d.components,
                        structure: d.structure,
                    },
                );
                proof {
                    lemma_unique_push_type(pre, self.symbol_table.types@);
                }
                Ok(())
            },
            Declaration::Behavior(d) => {
                if self.symbol_table.get_behavior(d.name.as_str()).is_some() {
                    return Err(SemanticError::DuplicateBehavior(d.name));
                }
                let args = params_of(d.args);
                let ghost pre = self.symbol_table.behaviors@;
                self.symbol_table.behaviors.push(
                    BehaviorInfo { name: d.name, args, return_type: d.return_type },
                );
                proof {
                    assert(self.symbol_table.behaviors@.take(pre.len() as int) =~= pre);
                    lemma_unique_push_behavior(pre, self.symbol_table.behaviors@);
                }
                Ok(())
            },
            Declaration::Function(d) => {
                if self.symbol_table.get_function(d.name.as_str()).is_some() {
                    return Err(SemanticError::DuplicateFunction(d.name));
                }
                let params = params_of(d.params);
                let ghost pre = self.symbol_table.functions@;
                self.symbol_table.functions.push(
                    FuncInfo { name: d.name, params, return_type: d.return_type },
                );
                proof {
                    assert(self.symbol_table.functions@.take(pre.len() as int) =~= pre);
                    lemma_unique_push_function(pre, self.symbol_table.functions@);
                }
                Ok(())
            },
            Declaration::Flow(d) => {
                if self.symbol_table.get_flow(d.name.as_str()).is_some() {
                    return Err(SemanticError::DuplicateFlow(d.name));
                }
                let ghost pre = self.symbol_table.flows@;
                self.symbol_table.flows.push(FlowInfo { name: d.name, body: d.body });
                proof {
                    lemma_unique_push_flow(pre, self.symbol_table.flows@);
                }
                Ok(())
            },
        }
    }
}

/// Turns the typed arguments of a declaration into parameter records,
/// in order, name and constraint kept as they are.
fn params_of(args: Vec<crate::ast::TypedArg>) -> (r: Vec<ParamInfo>)
    ensures
        r@.len() == args@.len(),
        forall|k: int|
            0 <= k < args@.len() ==> (#[trigger] r@[k]).name == args@[k].name && r@[k].constraint
                == args@[k].constraint,
{
    let mut r: Vec<ParamInfo> = Vec::new();
    let mut work = args;
    let ghost orig = work@;
    while work.len() > 0
        invariant
            r@.len() + work@.len() == orig.len(),
            work@ == orig.skip(r@.len() as int),
            forall|k: int|
                0 <= k < r@.len() ==> (#[trigger] r@[k]).name == orig[k].name && r@[k].constraint
                    == orig[k].constraint,
        decreases work@.len(),
    {
        assert(work@[0] == orig[r@.len() as int]);
        let a = work.remove(0);
        r.push(ParamInfo { name: a.name, constraint: a.constraint });
        assert(work@ =~= orig.skip(r@.len() as int));
    }
    r
}

/// Appending an info whose name is fresh keeps the kind unique by name.
proof fn lemma_unique_push_type(pre: Seq<TypeInfo>, post: Seq<TypeInfo>)
    requires
        post.len() == pre.len() + 1,
        forall|i: int| 0 <= i < pre.len() ==> post[i] == pre[i],
        !has_type(pre, post.last().name@),
    ensures
        (forall|i: int, j: int|
            0 <= i < j < pre.len() ==> (#[trigger] pre[i]).name@ != (#[trigger] pre[j]).name@)
            ==> (forall|i: int, j: int|
            0 <= i < j < post.len() ==> (#[trigger] post[i]).name@ != (#[trigger] post[j]).name@),
{
    assert forall|i: int| 0 <= i < pre.len() implies (#[trigger] pre[i]).name@
        != post.last().name@ by {}
}

/// Appending an info whose name is fresh keeps the kind unique by name.
proof fn lemma_unique_push_behavior(pre: Seq<BehaviorInfo>, post: Seq<BehaviorInfo>)
    requires
        post.len() == pre.len() + 1,
        forall|i: int| 0 <= i < pre.len() ==> post[i] == pre[i],
        !has_behavior(pre, post.last().name@),
    ensures
        (forall|i: int, j: int|
            0 <= i < j < pre.len() ==> (#[trigger] pre[i]).name@ != (#[trigger] pre[j]).name@)
            ==> (forall|i: int, j: int|
            0 <= i < j < post.len() ==> (#[trigger] post[i]).name@ != (#[trigger] post[j]).name@),
{
    assert forall|i: int| 0 <= i < pre.len() implies (#[trigger] pre[i]).name@
        != post.last().name@ by {}
}

/// Appending an info whose name is fresh keeps the kind unique by name.
proof fn lemma_unique_push_function(pre: Seq<FuncInfo>, post: Seq<FuncInfo>)
    requires
        post.len() == pre.len() + 1,
        forall|i: int| 0 <= i < pre.len() ==> post[i] == pre[i],
        !has_function(pre, post.last().name@),
    ensures
        (forall|i: int, j: int|
            0 <= i < j < pre.len() ==> (#[trigger] pre[i]).name@ != (#[trigger] pre[j]).name@)
            ==> (forall|i: int, j: int|
            0 <= i < j < post.len() ==> (#[trigger] post[i]).name@ != (#[trigger] post[j]).name@),
{
    assert forall|i: int| 0 <= i < pre.len() implies (#[trigger] pre[i]).name@
        != post.last().name@ by {}
}

/// Appending an info whose name is fresh keeps the kind unique by name.
proof fn lemma_unique_push_flow(pre: Seq<FlowInfo>, post: Seq<FlowInfo>)
    requires
        post.len() == pre.len() + 1,
        forall|i: int| 0 <= i < pre.len() ==> post[i] == pre[i],
        !has_flow(pre, post.last().name@),
    ensures
        (forall|i: int, j: int|
            0 <= i < j < pre.len() ==> (#[trigger] pre[i]).name@ != (#[trigger] pre[j]).name@)
            ==> (forall|i: int, j: int|
            0 <= i < j < post.len() ==> (#[trigger] post[i]).name@ != (#[trigger] post[j]).name@),
{
    assert forall|i: int| 0 <= i < pre.len() implies (#[trigger] pre[i]).name@
        != post.last().name@ by {}
}

} // verus!
