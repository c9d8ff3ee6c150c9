//! The synthesis engine and its dispatcher: interprets a flow as a
//! search that branches on every polymorphic dispatch and variant
//! expansion, producing a forest of execution-graph contexts.

use vstd::prelude::*;
use vstd::pervasive::VecAdditionalExecFns;
use crate::ast::{Expr, ArgValue, FlowStmt, Op, Constraint, ConstraintV};
use crate::symbols::{
    SymbolTable,
    TypeInfo,
    ParamInfo,
    FuncInfo,
    BehaviorInfo,
    has_flow,
    has_type,
    has_function,
    has_behavior,
};
use crate::constraints::{
    Atom,
    AtomV,
    ConstraintSet,
    cset_wf,
    csem,
    chain_wf,
    set_matches,
    sem,
    expand,
    matches_chain,
    clone_cset,
    insert_atom,
    str_eq,
};
use crate::ir::{
    ExecutionGraph,
    ExecutionNode,
    ExecutionNodeV,
    OperatorOp,
    OperatorOpV,
    graph_wf,
    node_wf,
};

verus! {

/// What can end a synthesis run.
#[derive(Debug)]
pub enum SynthesisError {
    FlowNotFound(String),
    VariableNotFound(String),
    TypeMismatch(String, String),
    ConstraintFailed(String),
    AmbiguousImpl(String),
    NoImplFound(String),
    RecursionLimitExceeded(String),
}

/// The state a context holds for one bound variable: the chains it may
/// satisfy and the graph node that computes it.
#[derive(Debug)]
pub struct VariableState {
    pub name: String,
    pub constraint_set: ConstraintSet,
    pub node_id: usize,
}

/// One synthesis branch: its variable bindings and its own execution
/// graph.  Branching duplicates contexts; they are never shared.
#[derive(Debug)]
pub struct Context {
    pub variables: Vec<VariableState>,
    pub graph: ExecutionGraph,
}

/// Whether some bound variable carries this name.
pub open spec fn has_var(vars: Seq<VariableState>, name: Seq<char>) -> bool {
    exists|i: int| 0 <= i < vars.len() && (#[trigger] vars[i]).name@ == name
}

/// A context is well formed when its graph references only earlier
/// nodes, every binding points into the graph with a well-formed
/// constraint set, and no name is bound twice.
pub open spec fn ctx_wf(c: Context) -> bool {
    &&& graph_wf(c.graph@)
    &&& forall|i: int|
        0 <= i < c.variables@.len() ==> (#[trigger] c.variables@[i]).node_id < c.graph@.len()
    &&& forall|i: int|
        0 <= i < c.variables@.len() ==> cset_wf(
            (#[trigger] c.variables@[i]).constraint_set.deep_view(),
        )
    &&& forall|i: int, j: int|
        0 <= i < j < c.variables@.len() ==> (#[trigger] c.variables@[i]).name@ != (
        #[trigger] c.variables@[j]).name@
}

/// Whether two contexts carry the same bindings and the same graph.
pub open spec fn ctx_equiv(a: Context, b: Context) -> bool {
    &&& a.graph@ == b.graph@
    &&& a.variables@.len() == b.variables@.len()
    &&& forall|i: int|
        0 <= i < a.variables@.len() ==> (#[trigger] a.variables@[i]).name@
            == b.variables@[i].name@ && a.variables@[i].node_id == b.variables@[i].node_id
            && a.variables@[i].constraint_set.deep_view()
            == b.variables@[i].constraint_set.deep_view()
}

impl Context {
    /// A fresh context: no bindings, empty graph.
    pub fn new() -> (c: Context)
        ensures
            c.variables@ =~= Seq::<VariableState>::empty(),
            c.graph@ =~= Seq::<ExecutionNodeV>::empty(),
            ctx_wf(c),
    {
        let c = Context { variables: Vec::new(), graph: ExecutionGraph::new() };
        c
    }

    /// Appends a node to this context's graph and returns its id.
    pub fn add_node(&mut self, node: ExecutionNode) -> (id: usize)
        requires
            node_wf(node@, old(self).graph@.len() as int),
        ensures
            final(self).graph@ == old(self).graph@.push(node@),
            final(self).variables@ == old(self).variables@,
            id == old(self).graph@.len(),
            ctx_wf(*old(self)) ==> ctx_wf(*final(self)),
    {
        let id = self.graph.add_node(node);
        id
    }

    /// An exact copy of this context, so one branch can diverge from
    /// another without sharing.
    pub fn duplicate(&self) -> (r: Context)
        ensures
            ctx_equiv(r, *self),
            ctx_wf(*self) ==> ctx_wf(r),
    {
        let mut variables: Vec<VariableState> = Vec::new();
        let mut i: usize = 0;
        while i < self.variables.len()
            invariant
                i <= self.variables@.len(),
                variables@.len() == i,
                forall|k: int|
                    0 <= k < i ==> (#[trigger] variables@[k]).name@ == self.variables@[k].name@
                        && variables@[k].node_id == self.variables@[k].node_id
                        && variables@[k].constraint_set.deep_view()
                        == self.variables@[k].constraint_set.deep_view(),
            decreases self.variables@.len() - i,
        {
            let v = &self.variables[i];
            variables.push(
                VariableState {
                    name: v.name.clone(),
                    constraint_set: clone_cset(&v.constraint_set),
                    node_id: v.node_id,
                },
            );
            i = i + 1;
        }
        let r = Context { variables, graph: self.graph.duplicate() };
        r
    }

    /// The state bound to this name, if any.
    pub fn get_var(&self, name: &str) -> (r: Option<&VariableState>)
        ensures
            match r {
                Some(v) => v.name@ == name@ && exists|i: int|
                    0 <= i < self.variables@.len() && *v == #[trigger] self.variables@[i],
                None => !has_var(self.variables@, name@),
            },
    {
        let mut i: usize = 0;
        while i < self.variables.len()
            invariant
                i <= self.variables@.len(),
                forall|k: int| 0 <= k < i ==> (#[trigger] self.variables@[k]).name@ != name@,
            decreases self.variables@.len() - i,
        {
            if str_eq(self.variables[i].name.as_str(), name) {
                return Some(&self.variables[i]);
            }
            i = i + 1;
        }
        None
    }

    /// Binds a name to a state, replacing any earlier binding of the
    /// same name.
    #[verifier::loop_isolation(false)]
    pub fn set_var(&mut self, name: String, constraint_set: ConstraintSet, node_id: usize)
        ensures
            final(self).graph@ == old(self).graph@,
            ({
                let pre = old(self).variables@;
                let post = final(self).variables@;
                let state = (VariableState { name, constraint_set, node_id });
                &&& has_var(post, name@)
                &&& post.len() <= pre.len() + 1
                &&& (exists|i: int| 0 <= i < post.len() && #[trigger] post[i] == state)
                &&& (ctx_wf(*old(self)) ==> (forall|i: int|
                    0 <= i < post.len() ==> ((#[trigger] post[i]).name@ == name@ ==> post[i]
                        == state)))
                &&& (forall|i: int|
                    0 <= i < post.len() && (#[trigger] post[i]).name@ != name@ ==> exists|j: int|
                        0 <= j < pre.len() && post[i] == #[trigger] pre[j])
            }),
            ctx_wf(*old(self)) && cset_wf(constraint_set.deep_view()) && node_id < old(self).graph@.len()
                ==> ctx_wf(*final(self)),
    {
        let ghost init = *self;
        let ghost pre = self.variables@;
        let mut i: usize = 0;
        while i < self.variables.len()
            invariant
                i <= self.variables@.len(),
                *self == init,
                self.variables@ == pre,
                forall|k: int| 0 <= k < i ==> (#[trigger] pre[k]).name@ != name@,
            decreases self.variables@.len() - i,
        {
            if str_eq(self.variables[i].name.as_str(), name.as_str()) {
                let state = VariableState { name, constraint_set, node_id };
                let ghost stv = state;
                self.variables.set(i, state);
                proof {
                    let postv = self.variables@;
                    assert(postv[i as int] == stv);
                    assert forall|k: int|
                        0 <= k < postv.len() && k != i implies postv[k] == pre[k] by {}
                    if ctx_wf(init) {
                        assert forall|k: int|
                            0 <= k < postv.len() && (#[trigger] postv[k]).name@
                                == stv.name@ implies postv[k] == stv by {
                            if k != i {
                                assert(postv[k] == init.variables@[k]);
                                assert(init.variables@[i as int] == pre[i as int]);
                            }
                        }
                    }
                }
                return ;
            }
            i = i + 1;
        }
        let state = VariableState { name, constraint_set, node_id };
        let ghost stv = state;
        self.variables.push(state);
        assert(self.variables@[pre.len() as int] == stv);
        proof {
            let postv = self.variables@;
            let g0 = self.graph@;
            assert(g0 == init.graph@);
            assert forall|k: int| 0 <= k < pre.len() implies postv[k] == pre[k] by {}
            if ctx_wf(init) && cset_wf(stv.constraint_set.deep_view()) && stv.node_id
                < init.graph@.len() {
                assert forall|i: int| 0 <= i < postv.len() implies (#[trigger] postv[i]).node_id
                    < self.graph@.len() by {
                    if i < pre.len() {
                        assert(postv[i] == init.variables@[i]);
                        assert(init.variables@[i].node_id < init.graph@.len());
                    } else {
                        assert(postv[i] == stv);
                    }
                }
                assert forall|i: int| 0 <= i < postv.len() implies cset_wf(
                    (#[trigger] postv[i]).constraint_set.deep_view(),
                ) by {
                    if i < pre.len() {
                        assert(postv[i] == init.variables@[i]);
                        assert(cset_wf(init.variables@[i].constraint_set.deep_view()));
                    }
                }
                assert forall|i: int, j: int| 0 <= i < j < postv.len() implies (
                #[trigger] postv[i]).name@ != (#[trigger] postv[j]).name@ by {
                    if j < pre.len() {
                        assert(postv[i] == init.variables@[i]);
                        assert(postv[j] == init.variables@[j]);
                    } else {
                        assert(postv[i] == pre[i]);
                        assert(postv[j] == stv);
                    }
                }
            }
            assert(postv[pre.len() as int].name@ == stv.name@);
            assert(has_var(postv, stv.name@));
        }
        assert forall|k: int|
            0 <= k < self.variables@.len() && (#[trigger] self.variables@[k]).name@
                != name@ implies exists|j: int|
            0 <= j < pre.len() && self.variables@[k] == #[trigger] pre[j] by {
            if k < pre.len() {
                assert(self.variables@[k] == pre[k]);
            }
        }
    }
}


/// The default limit on flow-reference recursion depth.
pub const SYNTH_RECURSION_LIMIT: u64 = 32;

/// Interprets flows against a read-only symbol table, enumerating every
/// well-typed concrete pipeline.
pub struct Synthesizer<'a> {
    pub symbol_table: &'a SymbolTable,
    pub max_depth: u64,
}

/// One atom a type grants directly: a declared property, or an atom of
/// some chain of its parent constraint.
pub open spec fn grants_atom(t: TypeInfo, a: AtomV) -> bool {
    ||| (exists|k: int|
        0 <= k < t.properties@.len() && a == AtomV::Type((#[trigger] t.properties@[k])@))
    ||| (match t.parent_constraint {
        Option::Some(pc) => exists|c: Set<AtomV>| #[trigger] sem(pc@).contains(c) && c.contains(a),
        Option::None => false,
    })
}

/// Every atom the type grants directly is inside `s`.
pub open spec fn type_grants_in(t: TypeInfo, s: Set<AtomV>) -> bool {
    forall|a: AtomV| grants_atom(t, a) ==> s.contains(a)
}

/// `s` is closed under the property walk: whatever any type named in
/// `s` grants is already in `s`.
pub open spec fn grants_closed(ts: Seq<TypeInfo>, s: Set<AtomV>) -> bool {
    forall|i: int|
        0 <= i < ts.len() && s.contains(AtomV::Type((#[trigger] ts[i]).name@)) ==> type_grants_in(
            ts[i],
            s,
        )
}

/// The atoms granted by the first `n` declared properties of a type.
pub open spec fn props_atoms(t: TypeInfo, n: int) -> Set<AtomV> {
    Set::new(
        |a: AtomV|
            exists|k: int| 0 <= k < n && a == AtomV::Type((#[trigger] t.properties@[k])@),
    )
}

/// The atoms of every chain among the first `n` chains of a normalized
/// collection.
pub open spec fn chains_atoms(ed: Seq<Seq<AtomV>>, n: int) -> Set<AtomV> {
    Set::new(
        |a: AtomV|
            exists|c: Set<AtomV>| #[trigger] csem(ed.take(n)).contains(c) && c.contains(a),
    )
}

/// Everything a type grants directly, as a set.
pub open spec fn granted_atoms(t: TypeInfo) -> Set<AtomV> {
    Set::new(|a: AtomV| grants_atom(t, a))
}

/// Adds to the chain every atom the type grants directly: its declared
/// properties and every atom of its expanded parent constraint.
#[verifier::loop_isolation(false)]
fn absorb_grants(full: &mut Vec<Atom>, info: &TypeInfo)
    requires
        chain_wf(old(full).deep_view()),
    ensures
        chain_wf(final(full).deep_view()),
        final(full).deep_view().to_set() == old(full).deep_view().to_set().union(
            granted_atoms(*info),
        ),
{
    let ghost f0 = full.deep_view().to_set();
    let mut pi: usize = 0;
    while pi < info.properties.len()
        invariant
            pi <= info.properties@.len(),
            chain_wf(full.deep_view()),
            full.deep_view().to_set() == f0.union(props_atoms(*info, pi as int)),
        decreases info.properties@.len() - pi,
    {
        let ghost fpre = full.deep_view().to_set();
        let p = &info.properties[pi];
        let atom = Atom::Type(p.clone());
        assert(atom@ == AtomV::Type(info.properties@[pi as int]@));
        let ghost x = atom@;
        insert_atom(full, atom);
        proof {
            assert(props_atoms(*info, pi as int + 1) =~= props_atoms(*info, pi as int).insert(
                x,
            )) by {
                assert forall|a: AtomV| props_atoms(*info, pi as int + 1).contains(a) implies
                    props_atoms(*info, pi as int).insert(x).contains(a) by {
                    let k = choose|k: int|
                        0 <= k < pi + 1 && a == AtomV::Type((#[trigger] info.properties@[k])@);
                    if k < pi {
                        assert(props_atoms(*info, pi as int).contains(a));
                    }
                }
            }
            assert(full.deep_view().to_set() =~= f0.union(props_atoms(*info, pi as int + 1)));
        }
        pi = pi + 1;
    }
    assert(full.deep_view().to_set() == f0.union(props_atoms(*info, info.properties@.len() as int)));
    let ghost f1 = full.deep_view().to_set();
    match &info.parent_constraint {
        Option::Some(pc) => {
            let e = expand(pc);
            let ghost ed = e.deep_view();
            proof {
                assert(chains_atoms(ed, 0) =~= Set::<AtomV>::empty());
                assert(full.deep_view().to_set() =~= f1.union(chains_atoms(ed, 0)));
            }
            let mut ci: usize = 0;
            while ci < e.len()
                invariant
                    ci <= ed.len(),
                    ed == e.deep_view(),
                    csem(ed) == sem(pc@),
                    cset_wf(ed),
                    chain_wf(full.deep_view()),
                    full.deep_view().to_set() == f1.union(chains_atoms(ed, ci as int)),
                decreases ed.len() - ci,
            {
                let ch = &e[ci];
                proof {
                    assert(ed[ci as int].take(0).len() == 0);
                    assert(ed[ci as int].take(0).to_set() =~= Set::<AtomV>::empty());
                    assert(full.deep_view().to_set() =~= f1.union(
                        chains_atoms(ed, ci as int),
                    ).union(ed[ci as int].take(0).to_set()));
                }
                let mut ai: usize = 0;
                while ai < ch.len()
                    invariant
                        ai <= ch.deep_view().len(),
                        ch.deep_view() == ed[ci as int],
                        ci < ed.len(),
                        chain_wf(full.deep_view()),
                        full.deep_view().to_set() == f1.union(
                            chains_atoms(ed, ci as int),
                        ).union(ed[ci as int].take(ai as int).to_set()),
                    decreases ch.deep_view().len() - ai,
                {
                    let ghost fpre = full.deep_view().to_set();
                    let atom = ch[ai].clone();
                    assert(atom@ == ed[ci as int][ai as int]);
                    let ghost x = atom@;
                    insert_atom(full, atom);
                    proof {
                        crate::constraints::lemma_take_to_set(ed[ci as int], ai as int);
                        assert(full.deep_view().to_set() =~= f1.union(
                            chains_atoms(ed, ci as int),
                        ).union(ed[ci as int].take(ai as int + 1).to_set()));
                    }
                    ai = ai + 1;
                }
                proof {
                    assert(ed[ci as int].take(ed[ci as int].len() as int) =~= ed[ci as int]);
                    crate::constraints::lemma_csem_take(ed, ci as int);
                    assert(chains_atoms(ed, ci as int + 1) =~= chains_atoms(
                        ed,
                        ci as int,
                    ).union(ed[ci as int].to_set())) by {
                        assert forall|a: AtomV|
                            chains_atoms(ed, ci as int + 1).contains(a) implies chains_atoms(
                            ed,
                            ci as int,
                        ).union(ed[ci as int].to_set()).contains(a) by {
                            let c = choose|c: Set<AtomV>|
                                #[trigger] csem(ed.take(ci as int + 1)).contains(c) && c.contains(
                                    a,
                                );
                            if csem(ed.take(ci as int)).contains(c) {
                                assert(chains_atoms(ed, ci as int).contains(a));
                            } else {
                                assert(c == ed[ci as int].to_set());
                            }
                        }
                        assert forall|a: AtomV|
                            chains_atoms(ed, ci as int).union(
                                ed[ci as int].to_set(),
                            ).contains(a) implies chains_atoms(ed, ci as int + 1).contains(a) by {
                            if chains_atoms(ed, ci as int).contains(a) {
                                let c = choose|c: Set<AtomV>|
                                    #[trigger] csem(ed.take(ci as int)).contains(c) && c.contains(
                                        a,
                                    );
                                assert(csem(ed.take(ci as int + 1)).contains(c));
                            } else {
                                assert(csem(ed.take(ci as int + 1)).contains(
                                    ed[ci as int].to_set(),
                                ));
                            }
                        }
                    }
                    assert(full.deep_view().to_set() =~= f1.union(
                        chains_atoms(ed, ci as int + 1),
                    ));
                }
                ci = ci + 1;
            }
            proof {
                assert(ed.take(ed.len() as int) =~= ed);
                assert(granted_atoms(*info) =~= props_atoms(
                    *info,
                    info.properties@.len() as int,
                ).union(chains_atoms(ed, ed.len() as int))) by {
                    assert(info.parent_constraint == Option::Some(*pc));
                    assert forall|a: AtomV| granted_atoms(*info).contains(a) implies props_atoms(
                        *info,
                        info.properties@.len() as int,
                    ).union(chains_atoms(ed, ed.len() as int)).contains(a) by {
                        if !props_atoms(*info, info.properties@.len() as int).contains(a) {
                            let c = choose|c: Set<AtomV>|
                                #[trigger] sem(pc@).contains(c) && c.contains(a);
                            assert(csem(ed.take(ed.len() as int)).contains(c));
                            assert(chains_atoms(ed, ed.len() as int).contains(a));
                        }
                    }
                    assert forall|a: AtomV|
                        props_atoms(*info, info.properties@.len() as int).union(
                            chains_atoms(ed, ed.len() as int),
                        ).contains(a) implies granted_atoms(*info).contains(a) by {
                        if chains_atoms(ed, ed.len() as int).contains(a) {
                            let c = choose|c: Set<AtomV>|
                                #[trigger] csem(ed.take(ed.len() as int)).contains(c)
                                    && c.contains(a);
                            assert(sem(pc@).contains(c));
                            assert(grants_atom(*info, a));
                        }
                    }
                }
                assert(full.deep_view().to_set() =~= f0.union(granted_atoms(*info)));
            }
        },
        Option::None => {
            proof {
                assert(granted_atoms(*info) =~= props_atoms(
                    *info,
                    info.properties@.len() as int,
                )) by {
                    assert(info.parent_constraint is None);
                }
                assert(full.deep_view().to_set() =~= f0.union(granted_atoms(*info)));
            }
        },
    }
}

/// Type names with their atoms present in the set stay covered as the
/// set grows.
proof fn lemma_grants_in_monotone(t: TypeInfo, s1: Set<AtomV>, s2: Set<AtomV>)
    requires
        type_grants_in(t, s1),
        s1.subset_of(s2),
    ensures
        type_grants_in(t, s2),
{
}

impl<'a> Synthesizer<'a> {
    /// A synthesizer over a read-only symbol table, with the default
    /// recursion limit.
    pub fn new(symbol_table: &'a SymbolTable) -> (s: Synthesizer<'a>)
        ensures
            s.symbol_table == symbol_table,
            s.max_depth == SYNTH_RECURSION_LIMIT,
    {
        Synthesizer { symbol_table, max_depth: SYNTH_RECURSION_LIMIT }
    }

    /// The index of some type whose name atom is in the chain but whose
    /// grants have not been absorbed yet, if any remains.
    fn find_expandable(&self, full: &Vec<Atom>, done: &Vec<bool>) -> (r: Option<usize>)
        requires
            done@.len() == self.symbol_table.types@.len(),
        ensures
            match r {
                Some(i) => i < done@.len() && !done@[i as int]
                    && full.deep_view().to_set().contains(
                    AtomV::Type(self.symbol_table.types@[i as int].name@),
                ),
                None => forall|i: int|
                    0 <= i < done@.len() ==> done@[i] || !full.deep_view().to_set().contains(
                        AtomV::Type((#[trigger] self.symbol_table.types@[i]).name@),
                    ),
            },
    {
        let ghost ts = self.symbol_table.types@;
        let mut i: usize = 0;
        while i < done.len()
            invariant
                i <= done@.len(),
                done@.len() == ts.len(),
                ts == self.symbol_table.types@,
                forall|k: int|
                    0 <= k < i ==> done@[k] || !full.deep_view().to_set().contains(
                        AtomV::Type((#[trigger] ts[k]).name@),
                    ),
            decreases done@.len() - i,
        {
            if !done[i] {
                let probe = Atom::Type(self.symbol_table.types[i].name.clone());
                assert(probe@ == AtomV::Type(ts[i as int].name@));
                if crate::constraints::contains_atom(full, &probe) {
                    return Some(i);
                }
            }
            i = i + 1;
        }
        None
    }

    /// The property closure of a chain: accumulates every atom that the
    /// types named in the chain grant, transitively through parent
    /// constraints, deduplicated and sorted.  The result is the least
    /// superset of the chain closed under the table's grants; the done
    /// flags bound the walk by the number of declared types.
    #[verifier::loop_isolation(false)]
    pub fn fully_expand_chain(&self, chain: Vec<Atom>) -> (r: Vec<Atom>)
        requires
            self.symbol_table.wf(),
        ensures
            chain_wf(r.deep_view()),
            chain.deep_view().to_set().subset_of(r.deep_view().to_set()),
            grants_closed(self.symbol_table.types@, r.deep_view().to_set()),
            forall|s: Set<AtomV>|
                #[trigger] grants_closed(self.symbol_table.types@, s)
                    && chain.deep_view().to_set().subset_of(s) ==> r.deep_view().to_set().subset_of(
                    s,
                ),
    {
        let ghost ts = self.symbol_table.types@;
        let ghost chain0 = chain.deep_view().to_set();
        let mut full: Vec<Atom> = Vec::new();
        let mut i: usize = 0;
        while i < chain.len()
            invariant
                i <= chain@.len(),
                chain_wf(full.deep_view()),
                full.deep_view().to_set() == chain.deep_view().take(i as int).to_set(),
            decreases chain@.len() - i,
        {
            let atom = chain[i].clone();
            assert(atom@ == chain.deep_view()[i as int]);
            insert_atom(&mut full, atom);
            proof {
                crate::constraints::lemma_take_to_set(chain.deep_view(), i as int);
                assert(full.deep_view().to_set() =~= chain.deep_view().take(
                    i as int + 1,
                ).to_set());
            }
            i = i + 1;
        }
        proof {
            assert(chain.deep_view().take(chain.deep_view().len() as int) =~= chain.deep_view());
        }
        let mut done: Vec<bool> = Vec::new();
        let mut d: usize = 0;
        while d < self.symbol_table.types.len()
            invariant
                done@.len() == d,
                d <= ts.len(),
                forall|k: int| 0 <= k < d ==> !(#[trigger] done@[k]),
            decreases ts.len() - d,
        {
            done.push(false);
            d = d + 1;
        }
        loop
            invariant
                done@.len() == ts.len(),
                chain_wf(full.deep_view()),
                chain0.subset_of(full.deep_view().to_set()),
                forall|s: Set<AtomV>|
                    #[trigger] grants_closed(ts, s) && chain0.subset_of(s)
                        ==> full.deep_view().to_set().subset_of(s),
                forall|k: int|
                    0 <= k < ts.len() && #[trigger] done@[k] ==> type_grants_in(
                        ts[k],
                        full.deep_view().to_set(),
                    ),
            decreases count_false(done@, done@.len() as int),
        {
            match self.find_expandable(&full, &done) {
                Option::Some(idx) => {
                    let ghost fpre = full.deep_view().to_set();
                    let ghost dpre = done@;
                    let info = &self.symbol_table.types[idx];
                    let ghost infov = *info;
                    done.set(idx, true);
                    absorb_grants(&mut full, info);
                    proof {
                        let fpost = full.deep_view().to_set();
                        lemma_count_false_update(dpre, idx as int, dpre.len() as int);
                        // Below every closed superset of the start chain.
                        assert forall|s: Set<AtomV>|
                            #[trigger] grants_closed(ts, s) && chain0.subset_of(
                                s,
                            ) implies fpost.subset_of(s) by {
                            assert(fpre.subset_of(s));
                            assert(s.contains(AtomV::Type(ts[idx as int].name@)));
                            assert(type_grants_in(ts[idx as int], s));
                            assert forall|a: AtomV| fpost.contains(a) implies s.contains(a) by {
                                if !fpre.contains(a) {
                                    assert(granted_atoms(infov).contains(a));
                                    assert(grants_atom(infov, a));
                                }
                            }
                        }
                        // Absorbed types stay absorbed as the set grows.
                        assert forall|k: int|
                            0 <= k < ts.len() && #[trigger] done@[k] implies type_grants_in(
                            ts[k],
                            fpost,
                        ) by {
                            if k == idx {
                                assert forall|a: AtomV| grants_atom(ts[k], a) implies
                                    fpost.contains(a) by {
                                    assert(granted_atoms(infov).contains(a));
                                }
                            } else {
                                assert(done@[k] == dpre[k]);
                                lemma_grants_in_monotone(ts[k], fpre, fpost);
                            }
                        }
                    }
                },
                Option::None => {
                    proof {
                        assert forall|k: int|
                            0 <= k < ts.len() && full.deep_view().to_set().contains(
                                AtomV::Type((#[trigger] ts[k]).name@),
                            ) implies type_grants_in(ts[k], full.deep_view().to_set()) by {}
                    }
                    break ;
                },
            }
        }
        full
    }
}

/// How many flags of the first `n` are still unset.
pub open spec fn count_false(s: Seq<bool>, n: int) -> nat
    decreases n,
{
    if n <= 0 || n > s.len() {
        0
    } else {
        count_false(s, n - 1) + (if s[n - 1] {
            0nat
        } else {
            1nat
        })
    }
}

/// Setting one unset flag lowers the count of unset flags.
proof fn lemma_count_false_update(s: Seq<bool>, i: int, n: int)
    requires
        0 <= i < s.len(),
        !s[i],
        n <= s.len(),
    ensures
        i < n ==> count_false(s.update(i, true), n) < count_false(s, n),
        i >= n ==> count_false(s.update(i, true), n) == count_false(s, n),
    decreases n,
{
    if n > 0 {
        lemma_count_false_update(s, i, n - 1);
    }
}

/// The result of evaluating one actual argument: the node that computes
/// it, the chains it may satisfy, and its binding name if it was named.
#[derive(Debug)]
pub struct ArgResult {
    pub node_id: usize,
    pub constraint_set: ConstraintSet,
    pub name: Option<String>,
}

/// The mathematical shape of an [`ArgResult`].
pub struct ArgResultV {
    pub node_id: usize,
    pub chains: Seq<Seq<AtomV>>,
    pub name: Option<Seq<char>>,
}

impl View for ArgResult {
    type V = ArgResultV;

    open spec fn view(&self) -> ArgResultV {
        ArgResultV {
            node_id: self.node_id,
            chains: self.constraint_set.deep_view(),
            name: match self.name {
                Option::Some(n) => Option::Some(n@),
                Option::None => Option::None,
            },
        }
    }
}

impl DeepView for ArgResult {
    type V = ArgResultV;

    open spec fn deep_view(&self) -> ArgResultV {
        self@
    }
}

/// Whether every chain the argument may satisfy is subsumed by the
/// parameter's declared constraint.
pub open spec fn arg_fits(arg: ArgResultV, p: ParamInfo) -> bool {
    forall|k: int|
        0 <= k < arg.chains.len() ==> set_matches(
            (#[trigger] arg.chains[k]).to_set(),
            sem(p.constraint@),
        )
}

/// The position of the first argument carrying this binding name.
pub open spec fn first_named(args: Seq<ArgResultV>, n: Seq<char>) -> Option<int>
    decreases args.len(),
{
    if args.len() == 0 {
        Option::None
    } else if args[0].name == Option::Some(n) {
        Option::Some(0int)
    } else {
        match first_named(args.drop_first(), n) {
            Option::Some(j) => Option::Some(j + 1),
            Option::None => Option::None,
        }
    }
}

/// The position of the first positional (unnamed) argument.
pub open spec fn first_positional(args: Seq<ArgResultV>) -> Option<int>
    decreases args.len(),
{
    if args.len() == 0 {
        Option::None
    } else if args[0].name is None {
        Option::Some(0int)
    } else {
        match first_positional(args.drop_first()) {
            Option::Some(j) => Option::Some(j + 1),
            Option::None => Option::None,
        }
    }
}

/// The argument that binds to a parameter of this name: the first
/// argument named like it, else the first positional argument.
pub open spec fn pick_arg(args: Seq<ArgResultV>, pname: Seq<char>) -> Option<int> {
    match first_named(args, pname) {
        Option::Some(j) => Option::Some(j),
        Option::None => first_positional(args),
    }
}

/// Whether the arguments bind to the parameters: each parameter in turn
/// takes its named argument or the next positional one, every bound
/// argument satisfies the parameter's constraint chain for chain, and
/// nothing is left over or missing.
pub open spec fn args_bind(params: Seq<ParamInfo>, args: Seq<ArgResultV>) -> bool
    decreases params.len(),
{
    if params.len() == 0 {
        args.len() == 0
    } else {
        match pick_arg(args, params[0].name@) {
            Option::None => false,
            Option::Some(j) => arg_fits(args[j], params[0]) && args_bind(
                params.drop_first(),
                args.remove(j),
            ),
        }
    }
}

/// A found first occurrence pins down `first_named`.
proof fn lemma_first_named_at(args: Seq<ArgResultV>, n: Seq<char>, j: int)
    requires
        0 <= j < args.len(),
        args[j].name == Option::Some(n),
        forall|k: int| 0 <= k < j ==> (#[trigger] args[k]).name != Option::Some(n),
    ensures
        first_named(args, n) == Option::Some(j),
    decreases j,
{
    if j > 0 {
        lemma_first_named_at(args.drop_first(), n, j - 1);
    }
}

/// No occurrence at all means `first_named` finds none.
proof fn lemma_first_named_none(args: Seq<ArgResultV>, n: Seq<char>)
    requires
        forall|k: int| 0 <= k < args.len() ==> (#[trigger] args[k]).name != Option::Some(n),
    ensures
        first_named(args, n) is None,
    decreases args.len(),
{
    if args.len() > 0 {
        lemma_first_named_none(args.drop_first(), n);
    }
}

/// A found first positional pins down `first_positional`.
proof fn lemma_first_positional_at(args: Seq<ArgResultV>, j: int)
    requires
        0 <= j < args.len(),
        args[j].name is None,
        forall|k: int| 0 <= k < j ==> !((#[trigger] args[k]).name is None),
    ensures
        first_positional(args) == Option::Some(j),
    decreases j,
{
    if j > 0 {
        lemma_first_positional_at(args.drop_first(), j - 1);
    }
}

/// No positional argument at all means `first_positional` finds none.
proof fn lemma_first_positional_none(args: Seq<ArgResultV>)
    requires
        forall|k: int| 0 <= k < args.len() ==> !((#[trigger] args[k]).name is None),
    ensures
        first_positional(args) is None,
    decreases args.len(),
{
    if args.len() > 0 {
        lemma_first_positional_none(args.drop_first());
    }
}

/// An exact copy of an argument result.
fn clone_arg(a: &ArgResult) -> (r: ArgResult)
    ensures
        r@ == a@,
{
    ArgResult {
        node_id: a.node_id,
        constraint_set: clone_cset(&a.constraint_set),
        name: match &a.name {
            Option::Some(n) => Option::Some(n.clone()),
            Option::None => Option::None,
        },
    }
}

impl<'a> Synthesizer<'a> {
    /// Whether an argument satisfies a parameter: every chain of its
    /// constraint set must be subsumed by the parameter's constraint.
    fn arg_satisfies(&self, arg: &ArgResult, p: &ParamInfo) -> (r: bool)
        ensures
            r == arg_fits(arg@, *p),
    {
        let mut k: usize = 0;
        while k < arg.constraint_set.len()
            invariant
                k <= arg@.chains.len(),
                forall|t: int|
                    0 <= t < k ==> set_matches(
                        (#[trigger] arg@.chains[t]).to_set(),
                        sem(p.constraint@),
                    ),
            decreases arg@.chains.len() - k,
        {
            if !matches_chain(&arg.constraint_set[k], &p.constraint) {
                assert(arg@.chains[k as int] == arg.constraint_set@[k as int].deep_view());
                return false;
            }
            assert(arg@.chains[k as int] == arg.constraint_set@[k as int].deep_view());
            k = k + 1;
        }
        true
    }

    /// Whether the provided arguments match the required parameters,
    /// binding named arguments by parameter name and the rest
    /// positionally, with exact arity and chain-for-chain subsumption.
    #[verifier::loop_isolation(false)]
    pub fn check_args_match(&self, required: &Vec<ParamInfo>, provided: &Vec<ArgResult>) -> (r:
        bool)
        ensures
            r == args_bind(required@, provided.deep_view()),
    {
        if required.len() != provided.len() {
            proof {
                lemma_args_bind_arity(required@, provided.deep_view());
            }
            return false;
        }
        let mut work: Vec<ArgResult> = Vec::new();
        let mut w: usize = 0;
        while w < provided.len()
            invariant
                w <= provided@.len(),
                work@.len() == w,
                work.deep_view() == provided.deep_view().take(w as int),
            decreases provided@.len() - w,
        {
            let copied = clone_arg(&provided[w]);
            assert(copied@ == provided.deep_view()[w as int]);
            work.push(copied);
            assert(work.deep_view() =~= provided.deep_view().take(w as int + 1));
            w = w + 1;
        }
        assert(work.deep_view() =~= provided.deep_view());
        assert(required@.skip(0) =~= required@);
        let mut i: usize = 0;
        while i < required.len()
            invariant
                i <= required@.len(),
                work@.len() == required@.len() - i,
                args_bind(required@, provided.deep_view()) == args_bind(
                    required@.skip(i as int),
                    work.deep_view(),
                ),
            decreases required@.len() - i,
        {
            let pname = &required[i].name;
            assert(required@.skip(i as int)[0] == required@[i as int]);
            // Look for the first argument named like this parameter.
            let mut j: usize = 0;
            let mut found: bool = false;
            while j < work.len() && !found
                invariant
                    j <= work@.len(),
                    found ==> j < work@.len() && work.deep_view()[j as int].name
                        == Option::Some(pname@),
                    forall|k: int|
                        0 <= k < j ==> (#[trigger] work.deep_view()[k]).name != Option::Some(
                            pname@,
                        ),
                decreases work@.len() - j + (if found {
                    0int
                } else {
                    1int
                }),
            {
                let named = match &work[j].name {
                    Option::Some(n) => crate::constraints::str_eq(n.as_str(), pname.as_str()),
                    Option::None => false,
                };
                if named {
                    assert(work.deep_view()[j as int].name == Option::Some(pname@));
                    found = true;
                } else {
                    assert(work.deep_view()[j as int].name != Option::Some(pname@));
                    j = j + 1;
                }
            }
            if !found {
                proof {
                    lemma_first_named_none(work.deep_view(), pname@);
                }
                // Fall back to the first positional argument.
                j = 0;
                let mut found_pos: bool = false;
                while j < work.len() && !found_pos
                    invariant
                        j <= work@.len(),
                        found_pos ==> j < work@.len() && work.deep_view()[j as int].name is None,
                        forall|k: int|
                            0 <= k < j ==> !((#[trigger] work.deep_view()[k]).name is None),
                    decreases work@.len() - j + (if found_pos {
                        0int
                    } else {
                        1int
                    }),
                {
                    let bare = match &work[j].name {
                        Option::Some(_) => false,
                        Option::None => true,
                    };
                    if bare {
                        assert(work.deep_view()[j as int].name is None);
                        found_pos = true;
                    } else {
                        assert(!(work.deep_view()[j as int].name is None));
                        j = j + 1;
                    }
                }
                if !found_pos {
                    proof {
                        lemma_first_positional_none(work.deep_view());
                        assert(pick_arg(work.deep_view(), required@[i as int].name@) is None);
                        assert(!args_bind(required@.skip(i as int), work.deep_view()));
                    }
                    return false;
                }
                proof {
                    lemma_first_positional_at(work.deep_view(), j as int);
                }
            } else {
                proof {
                    lemma_first_named_at(work.deep_view(), pname@, j as int);
                }
            }
            assert(pick_arg(work.deep_view(), required@[i as int].name@) == Option::Some(
                j as int,
            ));
            let fits = self.arg_satisfies(&work[j], &required[i]);
            assert(work@[j as int]@ == work.deep_view()[j as int]);
            if !fits {
                assert(!args_bind(required@.skip(i as int), work.deep_view()));
                return false;
            }
            let ghost wpre = work.deep_view();
            let removed = work.remove(j);
            proof {
                assert(work.deep_view() =~= wpre.remove(j as int));
                assert(required@.skip(i as int).drop_first() =~= required@.skip(i as int + 1));
            }
            i = i + 1;
        }
        assert(required@.skip(required@.len() as int).len() == 0);
        assert(args_bind(required@.skip(i as int), work.deep_view()) == (work.deep_view().len()
            == 0));
        true
    }
}

/// Binding demands exact arity.
proof fn lemma_args_bind_arity(params: Seq<ParamInfo>, args: Seq<ArgResultV>)
    ensures
        args_bind(params, args) ==> params.len() == args.len(),
    decreases params.len(),
{
    if params.len() > 0 && args_bind(params, args) {
        match pick_arg(args, params[0].name@) {
            Option::Some(j) => {
                lemma_pick_in_range(args, params[0].name@);
                lemma_args_bind_arity(params.drop_first(), args.remove(j));
            },
            Option::None => {},
        }
    }
}

/// A picked argument lies inside the argument list.
proof fn lemma_pick_in_range(args: Seq<ArgResultV>, n: Seq<char>)
    ensures
        match pick_arg(args, n) {
            Option::Some(j) => 0 <= j < args.len(),
            Option::None => true,
        },
    decreases args.len(),
{
    if args.len() > 0 {
        lemma_pick_in_range(args.drop_first(), n);
    }
}

/// The variant atoms of a behavior return constraint: atoms standing in
/// union position whose names are not declared types.  They stand for
/// literal constants a dispatch may materialize.  An atom outside any
/// union — the whole return, or a conjunct of an intersection — is a
/// requirement, not a variant, and subtraction contributes none.
pub open spec fn variants_of(c: ConstraintV, ts: Seq<TypeInfo>) -> Seq<Seq<char>> {
    variants_in(c, ts, false)
}

/// The variants of a subtree, knowing whether the subtree stands
/// directly under a union.
pub open spec fn variants_in(c: ConstraintV, ts: Seq<TypeInfo>, under_union: bool) -> Seq<
    Seq<char>,
>
    decreases c, 1int, 0int,
{
    match c {
        ConstraintV::Atom(n) => if under_union && !has_type(ts, n) {
            seq![n]
        } else {
            Seq::empty()
        },
        ConstraintV::Union(cs) => variants_in_list(cs, cs.len() as int, ts, true),
        ConstraintV::Addition(cs) => variants_in_list(cs, cs.len() as int, ts, false),
        ConstraintV::Subtraction(_, _) => Seq::empty(),
    }
}

/// The variants of the first `n` children, concatenated in order.
pub open spec fn variants_in_list(
    cs: Seq<ConstraintV>,
    n: int,
    ts: Seq<TypeInfo>,
    under_union: bool,
) -> Seq<Seq<char>>
    decreases cs, 0int, n,
{
    if n <= 0 || n > cs.len() {
        Seq::empty()
    } else {
        variants_in_list(cs, n - 1, ts, under_union) + variants_in(cs[n - 1], ts, under_union)
    }
}

impl<'a> Synthesizer<'a> {
    /// Scans a behavior's return constraint for variants: atoms in union
    /// position that name no declared type.  Each such variant later
    /// yields a constant candidate during dispatch.
    pub fn collect_variants(&self, constraint: &Constraint) -> (r: Vec<String>)
        ensures
            r.deep_view() == variants_of(constraint@, self.symbol_table.types@),
    {
        self.collect_variants_in(constraint, false)
    }

    /// The variant walk, carrying whether the subtree stands directly
    /// under a union.
    #[verifier::loop_isolation(false)]
    fn collect_variants_in(&self, constraint: &Constraint, under_union: bool) -> (r: Vec<String>)
        ensures
            r.deep_view() == variants_in(constraint@, self.symbol_table.types@, under_union),
        decreases constraint, 1int,
    {
        let ghost ts = self.symbol_table.types@;
        match constraint {
            Constraint::Atom(name) => {
                let mut r: Vec<String> = Vec::new();
                if under_union && self.symbol_table.get_type(name.as_str()).is_none() {
                    r.push(name.clone());
                    assert(r.deep_view() =~= seq![name@]);
                } else {
                    assert(under_union ==> has_type(ts, name@));
                    assert(r.deep_view() =~= Seq::<Seq<char>>::empty());
                }
                r
            },
            Constraint::Union(cs) => {
                proof {
                    crate::ast::lemma_views_of(cs@, cs@.len() as int);
                }
                self.collect_variants_of_children(cs, true)
            },
            Constraint::Addition(cs) => {
                proof {
                    crate::ast::lemma_views_of(cs@, cs@.len() as int);
                }
                self.collect_variants_of_children(cs, false)
            },
            Constraint::Subtraction(_, _) => {
                let r: Vec<String> = Vec::new();
                assert(r.deep_view() =~= Seq::<Seq<char>>::empty());
                r
            },
        }
    }

    /// Concatenates the variants of every child, each child walked with
    /// the given union flag.
    #[verifier::loop_isolation(false)]
    fn collect_variants_of_children(&self, cs: &Vec<Constraint>, under_union: bool) -> (r: Vec<
        String,
    >)
        ensures
            r.deep_view() == variants_in_list(
                crate::ast::views_of(cs@, cs@.len() as int),
                cs@.len() as int,
                self.symbol_table.types@,
                under_union,
            ),
        decreases cs, 0int,
    {
        let ghost ts = self.symbol_table.types@;
        let ghost cv = crate::ast::views_of(cs@, cs@.len() as int);
        proof {
            crate::ast::lemma_views_of(cs@, cs@.len() as int);
        }
        let mut r: Vec<String> = Vec::new();
        let mut k: usize = 0;
        while k < cs.len()
            invariant
                k <= cs@.len(),
                r.deep_view() == variants_in_list(cv, k as int, ts, under_union),
            decreases cs@.len() - k,
        {
            let mut sub = self.collect_variants_in(&cs[k], under_union);
            let ghost subv = sub.deep_view();
            let ghost rv = r.deep_view();
            let mut t: usize = 0;
            while t < sub.len()
                invariant
                    t <= sub@.len(),
                    subv == sub.deep_view(),
                    r.deep_view() == rv + subv.take(t as int),
                decreases sub@.len() - t,
            {
                let copied = sub[t].clone();
                assert(copied@ == subv[t as int]);
                let ghost rvpre = r@;
                let ghost rdpre = r.deep_view();
                r.push(copied);
                proof {
                    assert(r@ == rvpre.push(copied));
                    assert(r.deep_view() =~= rdpre.push(copied@)) by {
                        assert forall|k2: int| 0 <= k2 < rvpre.len() implies r@[k2]
                            == rvpre[k2] by {}
                    }
                    assert(subv.take(t as int + 1) =~= subv.take(t as int).push(subv[t as int]));
                    assert(r.deep_view() =~= rv + subv.take(t as int + 1));
                }
                t = t + 1;
            }
            proof {
                assert(subv.take(subv.len() as int) =~= subv);
                assert(r.deep_view() =~= variants_in_list(cv, k as int + 1, ts, under_union));
            }
            k = k + 1;
        }
        r
    }
}

/// The decimal digit characters in order.
pub open spec fn dec_digit(d: int) -> char {
    if d == 0 {
        '0'
    } else if d == 1 {
        '1'
    } else if d == 2 {
        '2'
    } else if d == 3 {
        '3'
    } else if d == 4 {
        '4'
    } else if d == 5 {
        '5'
    } else if d == 6 {
        '6'
    } else if d == 7 {
        '7'
    } else if d == 8 {
        '8'
    } else {
        '9'
    }
}

/// The decimal digits of a non-negative number, most significant first;
/// zero has no digits.
pub open spec fn dec_str(n: int) -> Seq<char>
    decreases n,
{
    if n <= 0 {
        Seq::empty()
    } else {
        dec_str(n / 10).push(dec_digit(n % 10))
    }
}

/// The decimal rendering of an integer.
pub open spec fn int_str(n: int) -> Seq<char> {
    if n == 0 {
        seq!['0']
    } else if n < 0 {
        seq!['-'] + dec_str(-n)
    } else {
        dec_str(n)
    }
}

/// One decimal digit as text.
fn digit_str(d: u64) -> (r: &'static str)
    requires
        d < 10,
    ensures
        r@ =~= seq![dec_digit(d as int)],
{
    if d == 0 {
        let r = "0";
        proof {
            reveal_strlit("0");
        }
        r
    } else if d == 1 {
        let r = "1";
        proof {
            reveal_strlit("1");
        }
        r
    } else if d == 2 {
        let r = "2";
        proof {
            reveal_strlit("2");
        }
        r
    } else if d == 3 {
        let r = "3";
        proof {
            reveal_strlit("3");
        }
        r
    } else if d == 4 {
        let r = "4";
        proof {
            reveal_strlit("4");
        }
        r
    } else if d == 5 {
        let r = "5";
        proof {
            reveal_strlit("5");
        }
        r
    } else if d == 6 {
        let r = "6";
        proof {
            reveal_strlit("6");
        }
        r
    } else if d == 7 {
        let r = "7";
        proof {
            reveal_strlit("7");
        }
        r
    } else if d == 8 {
        let r = "8";
        proof {
            reveal_strlit("8");
        }
        r
    } else {
        let r = "9";
        proof {
            reveal_strlit("9");
        }
        r
    }
}

/// Renders an integer in decimal, as the constant nodes of execution
/// graphs carry their values.
#[verifier::loop_isolation(false)]
pub fn i64_to_string(n: i64) -> (r: String)
    ensures
        r@ == int_str(n as int),
{
    if n == 0 {
        let r = "0".to_owned();
        proof {
            reveal_strlit("0");
            assert(r@ =~= seq!['0']);
        }
        return r;
    }
    let neg = n < 0;
    let m0: u64 = if n >= 0 {
        n as u64
    } else {
        ((-(n + 1)) as u64) + 1
    };
    let ghost mag: int = m0 as int;
    assert(mag == (if n as int >= 0 { n as int } else { -(n as int) }));
    let mut digits: Vec<u64> = Vec::new();
    let mut m: u64 = m0;
    while m > 0
        invariant
            forall|k: int| 0 <= k < digits@.len() ==> (#[trigger] digits@[k]) < 10,
            dec_str(mag) =~= dec_str(m as int) + digit_chars(digits@),
        decreases m,
    {
        let d = m % 10;
        let ghost dpre = digits@;
        digits.push(d);
        proof {
            assert(digits@.last() == d);
            assert(digits@.drop_last() =~= dpre);
            assert(digit_chars(digits@) =~= seq![dec_digit(d as int)] + digit_chars(dpre));
            assert(dec_str(m as int) == dec_str(m as int / 10).push(dec_digit(m as int % 10)));
            assert(dec_str(m as int / 10) + digit_chars(digits@) =~= dec_str(m as int)
                + digit_chars(dpre));
        }
        m = m / 10;
    }
    assert(dec_str(mag) =~= digit_chars(digits@));
    let mut r: String = if neg {
        let s = "-".to_owned();
        proof {
            reveal_strlit("-");
            assert(s@ =~= seq!['-']);
        }
        s
    } else {
        String::new()
    };
    let ghost sign: Seq<char> = r@;
    let ghost dcs: Seq<char> = digit_chars(digits@);
    let ghost dlen: int = digits@.len() as int;
    proof {
        lemma_digit_chars_len(digits@);
        assert(r@ =~= sign + dcs.take(dlen - dlen));
    }
    let mut i: usize = digits.len();
    while i > 0
        invariant
            i <= digits@.len(),
            dcs == digit_chars(digits@),
            dlen == digits@.len() as int,
            dcs.len() == dlen,
            forall|k: int| 0 <= k < digits@.len() ==> (#[trigger] digits@[k]) < 10,
            r@ == sign + dcs.take(dlen - i),
        decreases i,
    {
        i = i - 1;
        r.append(digit_str(digits[i]));
        proof {
            lemma_digit_chars_index(digits@, dlen - 1 - i);
            assert(dcs[dlen - 1 - i] == dec_digit(digits@[i as int] as int));
            assert(dcs.take(dlen - i) =~= dcs.take(dlen - i - 1).push(dcs[dlen - i - 1]));
            assert(r@ =~= sign + dcs.take(dlen - i));
        }
    }
    proof {
        assert(dcs.take(dlen) =~= dcs);
        assert(r@ =~= sign + dec_str(mag));
        if n < 0 {
            assert(r@ =~= int_str(n as int));
        } else {
            assert(sign =~= Seq::<char>::empty());
            assert(r@ =~= int_str(n as int));
        }
    }
    r
}

/// The characters of collected digits, least significant first in the
/// list, read back most significant first.
pub open spec fn digit_chars(ds: Seq<u64>) -> Seq<char>
    decreases ds.len(),
{
    if ds.len() == 0 {
        Seq::empty()
    } else {
        seq![dec_digit(ds.last() as int)] + digit_chars(ds.drop_last())
    }
}

/// Digit rendering keeps the count of digits.
proof fn lemma_digit_chars_len(ds: Seq<u64>)
    ensures
        digit_chars(ds).len() == ds.len(),
    decreases ds.len(),
{
    if ds.len() > 0 {
        lemma_digit_chars_len(ds.drop_last());
    }
}

/// Digit rendering reads the collected digits backwards.
proof fn lemma_digit_chars_index(ds: Seq<u64>, j: int)
    requires
        0 <= j < ds.len(),
    ensures
        digit_chars(ds).len() == ds.len(),
        digit_chars(ds)[j] == dec_digit(ds[ds.len() - 1 - j] as int),
    decreases ds.len(),
{
    lemma_digit_chars_len(ds);
    if j > 0 {
        lemma_digit_chars_index(ds.drop_last(), j - 1);
    }
}

/// What satisfies the property-closure contract is exactly the closure.
proof fn lemma_closure_of_expansion(ts: Seq<TypeInfo>, seed: Set<AtomV>, full: Set<AtomV>)
    requires
        seed.subset_of(full),
        grants_closed(ts, full),
        forall|s: Set<AtomV>|
            #[trigger] grants_closed(ts, s) && seed.subset_of(s) ==> full.subset_of(s),
    ensures
        full == closure_atoms(ts, seed),
{
    assert forall|a: AtomV| full.contains(a) implies closure_atoms(ts, seed).contains(a) by {
        assert forall|t: Set<AtomV>|
            #[trigger] grants_closed(ts, t) && seed.subset_of(t) implies t.contains(a) by {
            assert(full.subset_of(t));
        }
    }
    assert forall|a: AtomV| closure_atoms(ts, seed).contains(a) implies full.contains(a) by {
        assert(grants_closed(ts, full) && seed.subset_of(full));
    }
    assert(full =~= closure_atoms(ts, seed));
}

/// The text a literal renders to on its constant node.
pub open spec fn literal_text(l: crate::ast::Literal) -> Seq<char> {
    match l {
        crate::ast::Literal::Integer(i) => int_str(i as int),
        crate::ast::Literal::Text(t) => t@,
        crate::ast::Literal::Boolean(b) => if b {
            "true"@
        } else {
            "false"@
        },
    }
}

/// Whether a flow name is on the active synthesis stack.
pub open spec fn on_stack(names: Seq<String>, n: Seq<char>) -> bool {
    exists|i: int| 0 <= i < names.len() && (#[trigger] names[i])@ == n
}

/// Whether two binding lists carry the same names, nodes and chains.
pub open spec fn bindings_equiv(a: Seq<VariableState>, b: Seq<VariableState>) -> bool {
    &&& a.len() == b.len()
    &&& forall|i: int|
        0 <= i < a.len() ==> (#[trigger] a[i]).name@ == b[i].name@ && a[i].node_id == b[i].node_id
            && a[i].constraint_set.deep_view() == b[i].constraint_set.deep_view()
}

/// One evaluation branch, pinned up to its chains: the bindings it
/// keeps, the graph it carries and the node computing its value.
pub open spec fn branch_frame(
    t: (Context, ConstraintSet, usize),
    vars: Seq<VariableState>,
    graph: Seq<ExecutionNodeV>,
    id: int,
) -> bool {
    &&& bindings_equiv(t.0.variables@, vars)
    &&& t.0.graph@ == graph
    &&& t.2 == id
}

/// One evaluation branch, fully pinned.
pub open spec fn branch_is(
    t: (Context, ConstraintSet, usize),
    vars: Seq<VariableState>,
    graph: Seq<ExecutionNodeV>,
    chains: Seq<Seq<AtomV>>,
    id: int,
) -> bool {
    &&& branch_frame(t, vars, graph, id)
    &&& t.1.deep_view() == chains
}

/// The canonical one-chain constraint set of a universe: the property
/// closure of the bare type atom, as a single sorted chain.
pub open spec fn closure_chain_of(
    ts: Seq<TypeInfo>,
    name: Seq<char>,
    chains: Seq<Seq<AtomV>>,
) -> bool {
    &&& chains.len() == 1
    &&& chain_wf(chains[0])
    &&& chains[0].to_set() == closure_atoms(ts, set![AtomV::Type(name)])
}

/// What every branch an evaluation returns must satisfy: a well-formed
/// context whose graph extends the graph evaluation started from, a
/// well-formed constraint set, and a node inside the graph.
pub open spec fn results_wf(rs: Seq<(Context, ConstraintSet, usize)>, base: Seq<ExecutionNodeV>) -> bool {
    forall|k: int|
        0 <= k < rs.len() ==> {
            &&& ctx_wf((#[trigger] rs[k]).0)
            &&& cset_wf(rs[k].1.deep_view())
            &&& rs[k].2 < rs[k].0.graph@.len()
            &&& base.is_prefix_of(rs[k].0.graph@)
        }
}

/// What every argument-threading state must satisfy on its way to the
/// dispatcher.
pub open spec fn states_wf(sts: Seq<(Context, Vec<ArgResult>)>, base: Seq<ExecutionNodeV>) -> bool {
    forall|k: int|
        0 <= k < sts.len() ==> {
            &&& ctx_wf((#[trigger] sts[k]).0)
            &&& base.is_prefix_of(sts[k].0.graph@)
            &&& (forall|j: int|
                0 <= j < sts[k].1@.len() ==> (#[trigger] sts[k].1@[j]).node_id
                    < sts[k].0.graph@.len() && cset_wf(sts[k].1@[j].constraint_set.deep_view()))
        }
}

/// A prefix stays a prefix of any extension.
proof fn lemma_prefix_trans(a: Seq<ExecutionNodeV>, b: Seq<ExecutionNodeV>, c: Seq<ExecutionNodeV>)
    requires
        a.is_prefix_of(b),
        b.is_prefix_of(c),
    ensures
        a.is_prefix_of(c),
{
    assert(a =~= c.subrange(0, a.len() as int));
}

/// A sequence is a prefix of itself and of itself extended by one.
proof fn lemma_prefix_extend(g: Seq<ExecutionNodeV>, n: ExecutionNodeV)
    ensures
        g.is_prefix_of(g),
        g.is_prefix_of(g.push(n)),
{
    assert(g =~= g.subrange(0, g.len() as int));
    assert(g =~= g.push(n).subrange(0, g.len() as int));
}

/// Appends one well-formed branch to a result list.
fn push_result(
    rs: &mut Vec<(Context, ConstraintSet, usize)>,
    item: (Context, ConstraintSet, usize),
    Ghost(base): Ghost<Seq<ExecutionNodeV>>,
)
    requires
        results_wf(old(rs)@, base),
        ctx_wf(item.0),
        cset_wf(item.1.deep_view()),
        item.2 < item.0.graph@.len(),
        base.is_prefix_of(item.0.graph@),
    ensures
        results_wf(final(rs)@, base),
        final(rs)@.len() == old(rs)@.len() + 1,
        final(rs)@ == old(rs)@.push(item),
{
    let ghost pre = rs@;
    let ghost itemg = item;
    rs.push(item);
    assert forall|k: int|
        0 <= k < rs@.len() implies {
        &&& ctx_wf((#[trigger] rs@[k]).0)
        &&& cset_wf(rs@[k].1.deep_view())
        &&& rs@[k].2 < rs@[k].0.graph@.len()
        &&& base.is_prefix_of(rs@[k].0.graph@)
    } by {
        if k < pre.len() {
            assert(rs@[k] == pre[k]);
        } else {
            assert(rs@[k] == itemg);
        }
    }
}

/// Appends one well-formed threading state.
fn push_state(
    sts: &mut Vec<(Context, Vec<ArgResult>)>,
    item: (Context, Vec<ArgResult>),
    Ghost(base): Ghost<Seq<ExecutionNodeV>>,
)
    requires
        states_wf(old(sts)@, base),
        ctx_wf(item.0),
        base.is_prefix_of(item.0.graph@),
        forall|j: int|
            0 <= j < item.1@.len() ==> (#[trigger] item.1@[j]).node_id < item.0.graph@.len()
                && cset_wf(item.1@[j].constraint_set.deep_view()),
    ensures
        states_wf(final(sts)@, base),
        final(sts)@.len() == old(sts)@.len() + 1,
        final(sts)@ == old(sts)@.push(item),
{
    let ghost pre = sts@;
    let ghost itemg = item;
    sts.push(item);
    assert forall|k: int|
        0 <= k < sts@.len() implies {
        &&& ctx_wf((#[trigger] sts@[k]).0)
        &&& base.is_prefix_of(sts@[k].0.graph@)
        &&& (forall|j: int|
            0 <= j < sts@[k].1@.len() ==> (#[trigger] sts@[k].1@[j]).node_id
                < sts@[k].0.graph@.len() && cset_wf(sts@[k].1@[j].constraint_set.deep_view()))
    } by {
        if k < pre.len() {
            assert(sts@[k] == pre[k]);
        } else {
            assert(sts@[k] == itemg);
        }
    }
}

/// An exact copy of a list of argument results.
fn clone_args(args: &Vec<ArgResult>) -> (r: Vec<ArgResult>)
    ensures
        r.deep_view() == args.deep_view(),
        r@.len() == args@.len(),
        forall|k: int| 0 <= k < args@.len() ==> #[trigger] r@[k]@ == args@[k]@,
{
    let mut r: Vec<ArgResult> = Vec::new();
    let mut i: usize = 0;
    while i < args.len()
        invariant
            i <= args@.len(),
            r@.len() == i,
            r.deep_view() == args.deep_view().take(i as int),
        decreases args@.len() - i,
    {
        let copied = clone_arg(&args[i]);
        assert(copied@ == args.deep_view()[i as int]);
        r.push(copied);
        assert(r.deep_view() =~= args.deep_view().take(i as int + 1));
        i = i + 1;
    }
    assert(r.deep_view() =~= args.deep_view());
    assert forall|k: int| 0 <= k < args@.len() implies #[trigger] r@[k]@ == args@[k]@ by {
        assert(r@[k]@ == r.deep_view()[k]);
        assert(args@[k]@ == args.deep_view()[k]);
    }
    r
}

/// An exact copy of a list of node ids.
fn copy_ids(ids: &Vec<usize>) -> (r: Vec<usize>)
    ensures
        r@ == ids@,
{
    let mut r: Vec<usize> = Vec::new();
    let mut i: usize = 0;
    while i < ids.len()
        invariant
            i <= ids@.len(),
            r@ == ids@.take(i as int),
        decreases ids@.len() - i,
    {
        r.push(ids[i]);
        assert(r@ =~= ids@.take(i as int + 1));
        i = i + 1;
    }
    assert(r@ =~= ids@);
    r
}

/// The label of a universe source node for a type of this name.
fn universe_label(name: &str) -> (r: String)
    ensures
        r@ == "Universe("@ + name@ + ")"@,
{
    let mut r = "Universe(".to_owned();
    r.append(name);
    r.append(")");
    r
}

/// The label of a source node standing for another flow's result.
fn flow_label(name: &str) -> (r: String)
    ensures
        r@ == "FlowResult("@ + name@ + ")"@,
{
    let mut r = "FlowResult(".to_owned();
    r.append(name);
    r.append(")");
    r
}

/// The size of an expression tree, for termination of evaluation.
pub open spec fn expr_size(e: Expr) -> nat
    decreases e, 1int, 0int,
{
    match e {
        Expr::Literal(_) => 1,
        Expr::Identifier(_) => 1,
        Expr::Call { name, args } => 1 + args_size(args@, args@.len() as int),
        Expr::BinaryOp { left, op, right } => 1 + expr_size(*left) + expr_size(*right),
    }
}

/// The combined size of the first `n` actual arguments.
pub open spec fn args_size(args: Seq<ArgValue>, n: int) -> nat
    decreases args, 0int, n,
{
    if n <= 0 || n > args.len() {
        0
    } else {
        args_size(args, n - 1) + expr_size(args[n - 1].value) + 1
    }
}

/// Each argument is smaller than the whole argument row.
proof fn lemma_args_size_bound(args: Seq<ArgValue>, n: int, k: int)
    requires
        0 <= k < n <= args.len(),
    ensures
        args_size(args, n) >= expr_size(args[k].value) + 1,
    decreases n,
{
    if k < n - 1 {
        lemma_args_size_bound(args, n - 1, k);
    }
}

/// The least superset of `s` that is closed under the table's property
/// grants: exactly what the walk of `fully_expand_chain` computes.
pub open spec fn closure_atoms(ts: Seq<TypeInfo>, s: Set<AtomV>) -> Set<AtomV> {
    Set::new(
        |a: AtomV|
            forall|t: Set<AtomV>|
                #[trigger] grants_closed(ts, t) && s.subset_of(t) ==> t.contains(a),
    )
}

/// The chains of `cs`, each replaced by its property closure.
pub open spec fn closure_image(ts: Seq<TypeInfo>, cs: Set<Set<AtomV>>) -> Set<Set<AtomV>> {
    Set::new(
        |x: Set<AtomV>|
            exists|c: Set<AtomV>| #[trigger] cs.contains(c) && x == closure_atoms(ts, c),
    )
}

/// When a function qualifies as a candidate implementation of a
/// behavior at a call site: its parameters bind and subsume the
/// arguments, its return constraint is inhabited, and every chain of
/// its fully expanded return subsumes the behavior's requirement.
pub open spec fn behavior_candidate(
    ts: Seq<TypeInfo>,
    f: FuncInfo,
    beh: BehaviorInfo,
    args: Seq<ArgResultV>,
) -> bool {
    &&& args_bind(f.params@, args)
    &&& sem(f.return_type@) != Set::<Set<AtomV>>::empty()
    &&& (forall|c: Set<AtomV>|
        #[trigger] sem(f.return_type@).contains(c) ==> set_matches(
            closure_atoms(ts, c),
            sem(beh.return_type@),
        ))
}

/// How many of the first `n` registered functions qualify as
/// candidates for the behavior at this call site.
pub open spec fn yield_count(
    ts: Seq<TypeInfo>,
    fns: Seq<FuncInfo>,
    n: int,
    beh: BehaviorInfo,
    args: Seq<ArgResultV>,
) -> nat
    decreases n,
{
    if n <= 0 || n > fns.len() {
        0
    } else {
        yield_count(ts, fns, n - 1, beh, args) + (if behavior_candidate(ts, fns[n - 1], beh, args) {
            1nat
        } else {
            0nat
        })
    }
}

/// The universe name a one-statement flow body evaluates, whether the
/// statement assigns it or returns it.
pub open spec fn spec_universe_name(body: Seq<FlowStmt>) -> Seq<char> {
    match spec_stmt_expr(body[0]) {
        Expr::Identifier(n) => n@,
        _ => Seq::empty(),
    }
}

/// The expression a flow statement evaluates.
pub open spec fn spec_stmt_expr(stmt: FlowStmt) -> Expr {
    match stmt {
        FlowStmt::Assignment { target, expr } => expr,
        FlowStmt::Return(expr) => expr,
    }
}

/// One pre-binding component branch: an empty-binding context holding
/// one source for the component universe.
pub open spec fn component_branch(
    ts: Seq<TypeInfo>,
    comp: Seq<char>,
    t: (Context, ConstraintSet, usize),
) -> bool {
    &&& t.0.variables@.len() == 0
    &&& t.0.graph@.len() == 1
    &&& t.0.graph@[0] == (ExecutionNodeV::Source { name: "Universe("@ + comp + ")"@, type_tag: comp })
    &&& t.2 == 0
    &&& closure_chain_of(ts, comp, t.1.deep_view())
}

/// The chains a variant candidate carries: the chains of the expanded
/// return that hold the variant's atom, or the singleton chain of that
/// atom where none does.
pub open spec fn variant_chain_sets(ret_sem: Set<Set<AtomV>>, v: Seq<char>) -> Set<Set<AtomV>> {
    let holding = Set::new(
        |c: Set<AtomV>| ret_sem.contains(c) && c.contains(AtomV::Type(v)),
    );
    if exists|c: Set<AtomV>| holding.contains(c) {
        holding
    } else {
        set![set![AtomV::Type(v)]]
    }
}

/// One variant candidate the dispatcher emits: the state's graph
/// extended by a constant node carrying the variant's literal, whose
/// chains are the variant's slice of the expanded return.
pub open spec fn variant_branch(
    t: (Context, ConstraintSet, usize),
    g: Seq<ExecutionNodeV>,
    ret_sem: Set<Set<AtomV>>,
    value: Seq<char>,
) -> bool {
    &&& t.0.graph@ == g.push((ExecutionNodeV::Constant { value: value, type_tag: "Constant"@ }))
    &&& t.2 == g.len()
    &&& csem(t.1.deep_view()) == variant_chain_sets(ret_sem, value)
}

/// The name an identifier expression carries.
pub open spec fn ident_name(e: Expr) -> Seq<char> {
    match e {
        Expr::Identifier(n) => n@,
        _ => Seq::empty(),
    }
}

/// The state bound to this name, where one is.
pub open spec fn var_state_of(vars: Seq<VariableState>, n: Seq<char>) -> VariableState {
    vars[choose|i: int| 0 <= i < vars.len() && (#[trigger] vars[i]).name@ == n]
}

/// Whether every actual argument of a call is an identifier bound in
/// the evaluating context.
pub open spec fn all_bound_idents(args: Seq<ArgValue>, vars: Seq<VariableState>) -> bool {
    forall|k: int|
        0 <= k < args.len() ==> (match (#[trigger] args[k]).value {
            Expr::Identifier(n) => has_var(vars, n@),
            _ => false,
        })
}

/// The argument row such a call hands the dispatcher: each argument's
/// stored state, under its binding name if it was named.
pub open spec fn bound_row(args: Seq<ArgValue>, vars: Seq<VariableState>) -> Seq<ArgResultV> {
    Seq::new(
        args.len(),
        |k: int|
            ArgResultV {
                node_id: var_state_of(vars, ident_name(args[k].value)).node_id,
                chains: var_state_of(
                    vars,
                    ident_name(args[k].value),
                ).constraint_set.deep_view(),
                name: match args[k].name {
                    Option::Some(n) => Option::Some(n@),
                    Option::None => Option::None,
                },
            },
    )
}

/// The behavior name an arithmetic operator desugars to.
pub open spec fn binop_behavior(op: Op) -> Seq<char> {
    match op {
        Op::Div => "divide"@,
        Op::Mul => "multiply"@,
        Op::Add => "add"@,
        Op::Sub => "subtract"@,
        _ => Seq::empty(),
    }
}

/// Whether an operator is arithmetic sugar for a behavior call.
pub open spec fn arith_op(op: Op) -> bool {
    op == Op::Div || op == Op::Mul || op == Op::Add || op == Op::Sub
}

/// Whether an expression is an identifier bound in these variables.
pub open spec fn bound_ident(e: Expr, vars: Seq<VariableState>) -> bool {
    match e {
        Expr::Identifier(n) => has_var(vars, n@),
        _ => false,
    }
}

/// The two-argument positional row an operator over bound identifiers
/// hands the dispatcher.
pub open spec fn binop_row(l: Expr, rgt: Expr, vars: Seq<VariableState>) -> Seq<ArgResultV> {
    seq![
        ArgResultV {
            node_id: var_state_of(vars, ident_name(l)).node_id,
            chains: var_state_of(vars, ident_name(l)).constraint_set.deep_view(),
            name: Option::None,
        },
        ArgResultV {
            node_id: var_state_of(vars, ident_name(rgt)).node_id,
            chains: var_state_of(vars, ident_name(rgt)).constraint_set.deep_view(),
            name: Option::None,
        },
    ]
}

/// The node ids an argument row hands to an emitted operation.
pub open spec fn row_ids(row: Seq<ArgResultV>) -> Seq<usize> {
    Seq::new(row.len(), |j: int| row[j].node_id)
}

/// One function candidate a behavior emits: the state's graph extended
/// by a call node over the row's ids, whose chains are the closure
/// image of the function's expanded return.
pub open spec fn candidate_branch(
    t: (Context, ConstraintSet, usize),
    g: Seq<ExecutionNodeV>,
    f: FuncInfo,
    row: Seq<ArgResultV>,
    ts: Seq<TypeInfo>,
) -> bool {
    &&& t.0.graph@ == g.push(
        (ExecutionNodeV::Operation {
            op: OperatorOpV::FunctionCall(f.name@),
            args: row_ids(row),
        }),
    )
    &&& t.2 == g.len()
    &&& csem(t.1.deep_view()) == closure_image(ts, sem(f.return_type@))
}

/// The single direct-function candidate the dispatcher falls back to:
/// the state's graph extended by a call node over the row's ids, whose
/// chains denote the function's expanded return.
pub open spec fn fallback_branch(
    t: (Context, ConstraintSet, usize),
    g: Seq<ExecutionNodeV>,
    f: FuncInfo,
    row: Seq<ArgResultV>,
) -> bool {
    &&& t.0.graph@ == g.push(
        (ExecutionNodeV::Operation {
            op: OperatorOpV::FunctionCall(f.name@),
            args: row_ids(row),
        }),
    )
    &&& t.2 == g.len()
    &&& csem(t.1.deep_view()) == sem(f.return_type@)
}

/// One synthesized component context: a single source node for the
/// component's universe, with the flow's target bound to it.
pub open spec fn component_ctx_is(
    ts: Seq<TypeInfo>,
    body: Seq<FlowStmt>,
    comp: Seq<char>,
    c: Context,
) -> bool {
    &&& c.graph@.len() == 1
    &&& c.graph@[0] == (ExecutionNodeV::Source { name: "Universe("@ + comp + ")"@, type_tag: comp })
    &&& c.variables@.len() == 1
    &&& c.variables@[0].name@ == spec_assign_target(body)
    &&& c.variables@[0].node_id == 0
    &&& closure_chain_of(ts, comp, c.variables@[0].constraint_set.deep_view())
}

/// The name a single-statement flow body binds: the assignment's
/// target, or `result` for a return statement, by convention.
pub open spec fn spec_assign_target(body: Seq<FlowStmt>) -> Seq<char> {
    match body[0] {
        FlowStmt::Assignment { target, expr } => target@,
        FlowStmt::Return(_) => "result"@,
    }
}

/// The component list of the type of this name, empty where the type
/// declares none.
pub open spec fn comp_list_of(ts: Seq<TypeInfo>, n: Seq<char>) -> Seq<String> {
    let i = choose|i: int| 0 <= i < ts.len() && (#[trigger] ts[i]).name@ == n;
    match ts[i].components {
        Option::Some(cs) => cs@,
        Option::None => Seq::empty(),
    }
}

/// The single evaluation branch such a body produces before binding:
/// an empty-binding context holding one universe source, whose chains
/// are the property closure of the universe's atom.
pub open spec fn universe_branch(
    ts: Seq<TypeInfo>,
    body: Seq<FlowStmt>,
    t: (Context, ConstraintSet, usize),
) -> bool {
    &&& t.0.variables@.len() == 0
    &&& t.0.graph@.len() == 1
    &&& t.0.graph@[0] == (ExecutionNodeV::Source {
        name: "Universe("@ + spec_universe_name(body) + ")"@,
        type_tag: spec_universe_name(body),
    })
    &&& t.2 == 0
    &&& closure_chain_of(ts, spec_universe_name(body), t.1.deep_view())
}

/// Candidate counts only grow along the function table.
proof fn lemma_yield_count_mono(
    ts: Seq<TypeInfo>,
    fns: Seq<FuncInfo>,
    a: int,
    b: int,
    beh: BehaviorInfo,
    row: Seq<ArgResultV>,
)
    requires
        0 <= a <= b <= fns.len(),
    ensures
        yield_count(ts, fns, a, beh, row) <= yield_count(ts, fns, b, beh, row),
    decreases b,
{
    if a < b {
        lemma_yield_count_mono(ts, fns, a, b - 1, beh, row);
    }
}

/// Emitting the candidate at slot `fi` extends the per-slot candidate
/// placement one step along the table.
proof fn lemma_candidates_extend(
    post: Seq<(Context, ConstraintSet, usize)>,
    pre: Seq<(Context, ConstraintSet, usize)>,
    rb: int,
    g: Seq<ExecutionNodeV>,
    ts: Seq<TypeInfo>,
    fnsv: Seq<FuncInfo>,
    behv: BehaviorInfo,
    argsv: Seq<ArgResultV>,
    fi: int,
)
    requires
        0 <= rb,
        0 <= fi < fnsv.len(),
        post.len() == pre.len() + 1,
        forall|t: int| 0 <= t < pre.len() ==> post[t] == pre[t],
        pre.len() == rb + yield_count(ts, fnsv, fi, behv, argsv),
        behavior_candidate(ts, fnsv[fi], behv, argsv),
        candidate_branch(
            post[rb + yield_count(ts, fnsv, fi, behv, argsv) as int],
            g,
            fnsv[fi],
            argsv,
            ts,
        ),
        forall|fp: int|
            0 <= fp < fi && behavior_candidate(ts, #[trigger] fnsv[fp], behv, argsv)
                ==> candidate_branch(
                pre[rb + yield_count(ts, fnsv, fp, behv, argsv) as int],
                g,
                fnsv[fp],
                argsv,
                ts,
            ),
    ensures
        forall|fp: int|
            0 <= fp < fi + 1 && behavior_candidate(ts, #[trigger] fnsv[fp], behv, argsv)
                ==> candidate_branch(
                post[rb + yield_count(ts, fnsv, fp, behv, argsv) as int],
                g,
                fnsv[fp],
                argsv,
                ts,
            ),
{
    assert forall|fp: int|
        0 <= fp < fi + 1 && behavior_candidate(ts, #[trigger] fnsv[fp], behv, argsv) implies
        candidate_branch(
        post[rb + yield_count(ts, fnsv, fp, behv, argsv) as int],
        g,
        fnsv[fp],
        argsv,
        ts,
    ) by {
        if fp < fi {
            lemma_yield_count_mono(ts, fnsv, fp + 1, fi, behv, argsv);
            assert(post[rb + yield_count(ts, fnsv, fp, behv, argsv) as int] == pre[rb
                + yield_count(ts, fnsv, fp, behv, argsv) as int]);
        }
    }
}

/// Appending further results leaves the placed candidates in place.
proof fn lemma_candidates_preserved(
    post: Seq<(Context, ConstraintSet, usize)>,
    pre: Seq<(Context, ConstraintSet, usize)>,
    rb: int,
    g: Seq<ExecutionNodeV>,
    ts: Seq<TypeInfo>,
    fnsv: Seq<FuncInfo>,
    behv: BehaviorInfo,
    argsv: Seq<ArgResultV>,
)
    requires
        0 <= rb,
        post.len() == pre.len() + 1,
        forall|t: int| 0 <= t < pre.len() ==> post[t] == pre[t],
        pre.len() >= rb + yield_count(ts, fnsv, fnsv.len() as int, behv, argsv),
        forall|fp: int|
            0 <= fp < fnsv.len() && behavior_candidate(ts, #[trigger] fnsv[fp], behv, argsv)
                ==> candidate_branch(
                pre[rb + yield_count(ts, fnsv, fp, behv, argsv) as int],
                g,
                fnsv[fp],
                argsv,
                ts,
            ),
    ensures
        forall|fp: int|
            0 <= fp < fnsv.len() && behavior_candidate(ts, #[trigger] fnsv[fp], behv, argsv)
                ==> candidate_branch(
                post[rb + yield_count(ts, fnsv, fp, behv, argsv) as int],
                g,
                fnsv[fp],
                argsv,
                ts,
            ),
{
    assert forall|fp: int|
        0 <= fp < fnsv.len() && behavior_candidate(ts, #[trigger] fnsv[fp], behv, argsv) implies
        candidate_branch(
        post[rb + yield_count(ts, fnsv, fp, behv, argsv) as int],
        g,
        fnsv[fp],
        argsv,
        ts,
    ) by {
        lemma_yield_count_mono(ts, fnsv, fp + 1, fnsv.len() as int, behv, argsv);
        assert(post[rb + yield_count(ts, fnsv, fp, behv, argsv) as int] == pre[rb + yield_count(
            ts,
            fnsv,
            fp,
            behv,
            argsv,
        ) as int]);
    }
}

/// Whether this name is already on the active synthesis stack.
fn name_on_stack(stack: &Vec<String>, name: &str) -> (r: bool)
    ensures
        r == on_stack(stack@, name@),
{
    let mut i: usize = 0;
    while i < stack.len()
        invariant
            i <= stack@.len(),
            forall|k: int| 0 <= k < i ==> (#[trigger] stack@[k])@ != name@,
        decreases stack@.len() - i,
    {
        if str_eq(stack[i].as_str(), name) {
            return true;
        }
        i = i + 1;
    }
    false
}

/// The active stack extended by one flow name.
fn push_stack_name(stack: &Vec<String>, name: &str) -> (r: Vec<String>)
    ensures
        r@.len() == stack@.len() + 1,
        forall|k: int| 0 <= k < stack@.len() ==> #[trigger] r@[k] == stack@[k],
        r@[stack@.len() as int]@ == name@,
{
    let mut r: Vec<String> = Vec::new();
    let mut i: usize = 0;
    while i < stack.len()
        invariant
            i <= stack@.len(),
            r@.len() == i,
            forall|k: int| 0 <= k < i ==> #[trigger] r@[k] == stack@[k],
        decreases stack@.len() - i,
    {
        let copied = stack[i].clone();
        let ghost rpre = r@;
        r.push(copied);
        assert forall|k: int| 0 <= k < i + 1 implies #[trigger] r@[k] == stack@[k] by {
            if k < i {
                assert(r@[k] == rpre[k]);
            }
        }
        i = i + 1;
    }
    r.push(name.to_owned());
    r
}

impl<'a> Synthesizer<'a> {
    /// Evaluates the actual arguments of a call in left-to-right order,
    /// threading every branching context: the result is the Cartesian
    /// product of the argument branches, each state carrying its context
    /// and the evaluated argument row.
    #[verifier::loop_isolation(false)]
    fn eval_args(
        &self,
        args: &Vec<ArgValue>,
        context: Context,
        depth: u64,
        stack: &Vec<String>,
    ) -> (r: Result<
        Vec<(Context, Vec<ArgResult>)>,
        SynthesisError,
    >)
        requires
            self.symbol_table.wf(),
            ctx_wf(context),
        ensures
            (r matches Ok(sts) ==> states_wf(sts@, context.graph@)),
            (args@.len() == 0 ==> (r matches Ok(sts) && sts@.len() == 1 && sts@[0].0 == context
                && sts@[0].1@.len() == 0)),
            (all_bound_idents(args@, context.variables@) ==> (r matches Ok(sts) && sts@.len()
                == 1 && sts@[0].0 == context && sts@[0].1.deep_view() == bound_row(
                args@,
                context.variables@,
            ))),
            (match r {
                Err(SynthesisError::FlowNotFound(n)) => !has_flow(
                    self.symbol_table.flows@,
                    n@,
                ),
                Err(SynthesisError::VariableNotFound(n)) => !has_type(
                    self.symbol_table.types@,
                    n@,
                ) && !has_flow(self.symbol_table.flows@, n@),
                _ => true,
            }),
        decreases depth, 2int, args_size(args@, args@.len() as int),
    {
        let ghost base = context.graph@;
        proof {
            lemma_prefix_extend(base, ExecutionNodeV::Source { name: Seq::empty(), type_tag: Seq::empty() });
        }
        let mut states: Vec<(Context, Vec<ArgResult>)> = Vec::new();
        let empty_args: Vec<ArgResult> = Vec::new();
        let ghost seed_state = (context, empty_args);
        push_state(&mut states, (context, empty_args), Ghost(base));
        let ghost init_states = states@;
        proof {
            assert(init_states[0] == seed_state);
        }
        let ghost bound = all_bound_idents(args@, context.variables@);
        let ghost brow = bound_row(args@, context.variables@);
        let mut k: usize = 0;
        while k < args.len()
            invariant
                k <= args@.len(),
                states_wf(states@, base),
                args@.len() == 0 ==> states@ == init_states,
                bound ==> states@.len() == 1 && states@[0].0 == context
                    && states@[0].1.deep_view() == brow.take(k as int),
            decreases args@.len() - k,
        {
            let mut next: Vec<(Context, Vec<ArgResult>)> = Vec::new();
            while states.len() > 0
                invariant
                    k < args@.len(),
                    states_wf(states@, base),
                    states_wf(next@, base),
                    bound ==> states@.len() + next@.len() <= 1,
                    bound && states@.len() == 1 ==> states@[0].0 == context
                        && states@[0].1.deep_view() == brow.take(k as int) && next@.len() == 0,
                    bound && states@.len() == 0 ==> next@.len() == 1 && next@[0].0 == context
                        && next@[0].1.deep_view() == brow.take(k as int + 1),
                decreases states@.len(),
            {
                let ghost spre = states@;
                let (ctx, prev) = states.remove(0);
                assert((ctx, prev) == spre[0]);
                proof {
                    lemma_args_size_bound(args@, args@.len() as int, k as int);
                }
                let rs = match self.eval_at(&args[k].value, ctx, depth, stack) {
                    Ok(rs) => rs,
                    Err(e) => {
                        return Err(e);
                    },
                };
                proof {
                    if bound {
                        // The argument is a bound identifier: one
                        // branch, the context untouched, its stored
                        // state handed on.
                        let n0 = ident_name(args@[k as int].value);
                        assert(has_var(context.variables@, n0));
                        let i0 = choose|i0: int|
                            0 <= i0 < context.variables@.len() && (
                            #[trigger] context.variables@[i0]).name@ == n0;
                        assert(rs@.len() == 1 && rs@[0].0 == context);
                        assert(rs@[0].1.deep_view() == var_state_of(
                            context.variables@,
                            n0,
                        ).constraint_set.deep_view() && rs@[0].2 == var_state_of(
                            context.variables@,
                            n0,
                        ).node_id) by {
                            let iw = choose|iw: int|
                                0 <= iw < context.variables@.len() && (
                                #[trigger] context.variables@[iw]).name@ == n0;
                            assert(context.variables@[iw].name@ == n0);
                        }
                    }
                }
                let mut rs = rs;
                while rs.len() > 0
                    invariant
                        results_wf(rs@, spre[0].0.graph@),
                        states_wf(next@, base),
                        base.is_prefix_of(spre[0].0.graph@),
                        forall|j: int|
                            0 <= j < prev@.len() ==> (#[trigger] prev@[j]).node_id
                                < spre[0].0.graph@.len() && cset_wf(
                                prev@[j].constraint_set.deep_view(),
                            ),
                        bound ==> rs@.len() + next@.len() <= 1,
                        bound && rs@.len() == 1 ==> rs@[0].0 == context && rs@[0].1.deep_view()
                            == brow[k as int].chains && rs@[0].2 == brow[k as int].node_id
                            && next@.len() == 0 && prev.deep_view() == brow.take(k as int),
                        bound && rs@.len() == 0 ==> next@.len() == 1 && next@[0].0 == context
                            && next@[0].1.deep_view() == brow.take(k as int + 1),
                    decreases rs@.len(),
                {
                    let ghost rpre = rs@;
                    let (c2, cs, id) = rs.remove(0);
                    assert((c2, cs, id) == rpre[0]);
                    let mut row = clone_args(&prev);
                    let bound_name: Option<String> = match &args[k].name {
                        Option::Some(n) => Option::Some(n.clone()),
                        Option::None => Option::None,
                    };
                    row.push(ArgResult { node_id: id, constraint_set: cs, name: bound_name });
                    proof {
                        lemma_prefix_trans(base, spre[0].0.graph@, c2.graph@);
                        assert forall|j: int|
                            0 <= j < row@.len() implies (#[trigger] row@[j]).node_id
                            < c2.graph@.len() && cset_wf(row@[j].constraint_set.deep_view()) by {
                            if j < prev@.len() {
                                assert(row@[j]@ == prev@[j]@);
                            }
                        }
                    }
                    proof {
                        if bound {
                            assert(row.deep_view() =~= brow.take(k as int + 1)) by {
                                assert(row@.len() == prev@.len() + 1);
                                assert forall|j: int|
                                    0 <= j < row@.len() implies row.deep_view()[j] == brow.take(
                                    k as int + 1,
                                )[j] by {
                                    if j < prev@.len() {
                                        assert(row.deep_view()[j] == prev.deep_view()[j]);
                                    } else {
                                        assert(row@[j]@ == brow[k as int]);
                                    }
                                }
                            }
                        }
                    }
                    push_state(&mut next, (c2, row), Ghost(base));
                }
            }
            states = next;
            k = k + 1;
        }
        proof {
            if bound {
                assert(brow.take(args@.len() as int) =~= brow);
            }
        }
        Ok(states)
    }

    /// What a behavior that claims a call emits: one branch per
    /// qualifying function — the candidate at table slot `fi` landing
    /// at output slot `yield_count(.., fi, ..)` — followed by one
    /// constant branch per variant of its return.
    pub open spec fn behavior_emission(
        &self,
        bi: int,
        row: Seq<ArgResultV>,
        g: Seq<ExecutionNodeV>,
        emitted: Seq<(Context, ConstraintSet, usize)>,
    ) -> bool {
        let fns_n = yield_count(
            self.symbol_table.types@,
            self.symbol_table.functions@,
            self.symbol_table.functions@.len() as int,
            self.symbol_table.behaviors@[bi],
            row,
        );
        let vars_n = variants_of(
            self.symbol_table.behaviors@[bi].return_type@,
            self.symbol_table.types@,
        );
        let ret_sem = sem(self.symbol_table.behaviors@[bi].return_type@);
        &&& emitted.len() == self.expected_of(bi, row)
        &&& (forall|k: int|
            0 <= k < vars_n.len() ==> variant_branch(
                #[trigger] emitted[fns_n + k],
                g,
                ret_sem,
                vars_n[k],
            ))
        &&& (forall|fi: int|
            0 <= fi < self.symbol_table.functions@.len() && behavior_candidate(
                self.symbol_table.types@,
                #[trigger] self.symbol_table.functions@[fi],
                self.symbol_table.behaviors@[bi],
                row,
            ) ==> candidate_branch(
                emitted[yield_count(
                    self.symbol_table.types@,
                    self.symbol_table.functions@,
                    fi,
                    self.symbol_table.behaviors@[bi],
                    row,
                ) as int],
                g,
                self.symbol_table.functions@[fi],
                row,
                self.symbol_table.types@,
            ))
    }

    /// The dispatcher's law at one call site: a behavior whose
    /// arguments bind yields exactly its qualifying functions plus its
    /// variant constants — each variant pinned as a constant node with
    /// its slice of the expanded return — and where it yields none, the
    /// direct function of the same name takes the call iff its own
    /// parameters bind, else a flow of the name is tried, else the call
    /// fails naming itself.
    pub open spec fn dispatch_law(
        &self,
        name: Seq<char>,
        row: Seq<ArgResultV>,
        g: Seq<ExecutionNodeV>,
        r: Result<Vec<(Context, ConstraintSet, usize)>, SynthesisError>,
    ) -> bool {
        forall|bi: int|
            0 <= bi < self.symbol_table.behaviors@.len() && (
            #[trigger] self.symbol_table.behaviors@[bi]).name@ == name && args_bind(
                self.symbol_table.behaviors@[bi].args@,
                row,
            ) ==> {
                let expected = self.expected_of(bi, row);
                &&& (expected > 0 ==> (r matches Ok(rs) && self.behavior_emission(
                    bi,
                    row,
                    g,
                    rs@,
                )))
                &&& (expected == 0 ==> (forall|fi: int|
                    0 <= fi < self.symbol_table.functions@.len() && (
                    #[trigger] self.symbol_table.functions@[fi]).name@ == name && args_bind(
                        self.symbol_table.functions@[fi].params@,
                        row,
                    ) ==> (r matches Ok(rs) && rs@.len() == 1 && fallback_branch(
                        rs@[0],
                        g,
                        self.symbol_table.functions@[fi],
                        row,
                    ))))
                &&& (expected == 0 && (forall|fi: int|
                    0 <= fi < self.symbol_table.functions@.len() && (
                    #[trigger] self.symbol_table.functions@[fi]).name@ == name
                        ==> !args_bind(self.symbol_table.functions@[fi].params@, row))
                    && !has_flow(self.symbol_table.flows@, name) ==> (r matches Err(e) && (
                e matches SynthesisError::NoImplFound(n2) && n2@ == name)))
            }
    }

    /// The dispatcher's law over the emitted list itself, threaded
    /// through its loops: what [`Self::dispatch_law`] says of the
    /// returned result, said of the candidates gathered so far.
    pub open spec fn dispatch_yield(
        &self,
        name: Seq<char>,
        row: Seq<ArgResultV>,
        g: Seq<ExecutionNodeV>,
        emitted: Seq<(Context, ConstraintSet, usize)>,
    ) -> bool {
        forall|bi: int|
            0 <= bi < self.symbol_table.behaviors@.len() && (
            #[trigger] self.symbol_table.behaviors@[bi]).name@ == name && args_bind(
                self.symbol_table.behaviors@[bi].args@,
                row,
            ) ==> {
                let expected = self.expected_of(bi, row);
                &&& (expected > 0 ==> self.behavior_emission(bi, row, g, emitted))
                &&& (expected == 0 ==> (forall|fi: int|
                    0 <= fi < self.symbol_table.functions@.len() && (
                    #[trigger] self.symbol_table.functions@[fi]).name@ == name && args_bind(
                        self.symbol_table.functions@[fi].params@,
                        row,
                    ) ==> emitted.len() == 1 && fallback_branch(
                        emitted[0],
                        g,
                        self.symbol_table.functions@[fi],
                        row,
                    )))
                &&& (expected == 0 && (forall|fi: int|
                    0 <= fi < self.symbol_table.functions@.len() && (
                    #[trigger] self.symbol_table.functions@[fi]).name@ == name
                        ==> !args_bind(self.symbol_table.functions@[fi].params@, row))
                    && !has_flow(self.symbol_table.flows@, name) ==> emitted.len() == 0)
            }
    }

    /// The number of candidates a matching behavior yields at a call
    /// site: its qualifying functions plus its variant constants.
    pub open spec fn expected_of(&self, bi: int, args: Seq<ArgResultV>) -> nat {
        yield_count(
            self.symbol_table.types@,
            self.symbol_table.functions@,
            self.symbol_table.functions@.len() as int,
            self.symbol_table.behaviors@[bi],
            args,
        ) + variants_of(
            self.symbol_table.behaviors@[bi].return_type@,
            self.symbol_table.types@,
        ).len()
    }

    /// Decides whether a function implements a behavior at this call
    /// site, and if so returns the constraint set its result carries:
    /// the fully expanded return chains.  The candidate set of a
    /// dispatch is exactly the functions this accepts, so registering a
    /// function that fails either subsumption check changes nothing.
    #[verifier::loop_isolation(false)]
    pub fn candidate_return(
        &self,
        f: &FuncInfo,
        beh: &BehaviorInfo,
        args: &Vec<ArgResult>,
    ) -> (r: Option<ConstraintSet>)
        requires
            self.symbol_table.wf(),
        ensures
            (r is Some) == behavior_candidate(
                self.symbol_table.types@,
                *f,
                *beh,
                args.deep_view(),
            ),
            (r matches Some(cs) ==> cset_wf(cs.deep_view()) && csem(cs.deep_view())
                == closure_image(self.symbol_table.types@, sem(f.return_type@))),
    {
        let ghost ts = self.symbol_table.types@;
        if !self.check_args_match(&f.params, args) {
            return None;
        }
        let fe = expand(&f.return_type);
        let ghost fsem = sem(f.return_type@);
        let mut full_fn: ConstraintSet = Vec::new();
        proof {
            assert(csem(full_fn.deep_view()) =~= closure_image(ts, csem(fe.deep_view().take(0))));
        }
        let mut ci: usize = 0;
        while ci < fe.len()
            invariant
                ci <= fe@.len(),
                cset_wf(fe.deep_view()),
                csem(fe.deep_view()) == fsem,
                cset_wf(full_fn.deep_view()),
                csem(full_fn.deep_view()) == closure_image(
                    ts,
                    csem(fe.deep_view().take(ci as int)),
                ),
            decreases fe@.len() - ci,
        {
            assert(chain_wf(fe.deep_view()[ci as int]));
            assert(fe.deep_view()[ci as int] == fe@[ci as int].deep_view());
            let copied = crate::constraints::clone_chain(&fe[ci]);
            let ghost seed = copied.deep_view().to_set();
            let fc = self.fully_expand_chain(copied);
            proof {
                // The walk computes exactly the closure of the chain.
                assert(fc.deep_view().to_set() =~= closure_atoms(ts, seed)) by {
                    assert forall|a: AtomV| fc.deep_view().to_set().contains(a) implies
                        closure_atoms(ts, seed).contains(a) by {
                        assert forall|t: Set<AtomV>|
                            #[trigger] grants_closed(ts, t) && seed.subset_of(t) implies
                            t.contains(a) by {
                            assert(fc.deep_view().to_set().subset_of(t));
                        }
                    }
                    assert forall|a: AtomV| closure_atoms(ts, seed).contains(a) implies
                        fc.deep_view().to_set().contains(a) by {
                        assert(grants_closed(ts, fc.deep_view().to_set()) && seed.subset_of(
                            fc.deep_view().to_set(),
                        ));
                    }
                }
                crate::constraints::lemma_csem_take(fe.deep_view(), ci as int);
            }
            let ghost fcset = fc.deep_view().to_set();
            crate::constraints::push_chain(&mut full_fn, fc);
            proof {
                assert(csem(full_fn.deep_view()) =~= closure_image(
                    ts,
                    csem(fe.deep_view().take(ci as int + 1)),
                )) by {
                    assert forall|x: Set<AtomV>|
                        csem(full_fn.deep_view()).contains(x) implies closure_image(
                        ts,
                        csem(fe.deep_view().take(ci as int + 1)),
                    ).contains(x) by {
                        if x == fcset {
                            assert(csem(fe.deep_view().take(ci as int + 1)).contains(
                                fe.deep_view()[ci as int].to_set(),
                            ));
                        } else {
                            let c = choose|c: Set<AtomV>|
                                #[trigger] csem(fe.deep_view().take(ci as int)).contains(c) && x
                                    == closure_atoms(ts, c);
                            assert(csem(fe.deep_view().take(ci as int + 1)).contains(c));
                        }
                    }
                    assert forall|x: Set<AtomV>|
                        closure_image(ts, csem(fe.deep_view().take(ci as int + 1))).contains(
                            x,
                        ) implies csem(full_fn.deep_view()).contains(x) by {
                        let c = choose|c: Set<AtomV>|
                            #[trigger] csem(fe.deep_view().take(ci as int + 1)).contains(c) && x
                                == closure_atoms(ts, c);
                        if csem(fe.deep_view().take(ci as int)).contains(c) {
                            assert(closure_image(
                                ts,
                                csem(fe.deep_view().take(ci as int)),
                            ).contains(x));
                        } else {
                            assert(c == fe.deep_view()[ci as int].to_set());
                        }
                    }
                }
            }
            ci = ci + 1;
        }
        proof {
            assert(fe.deep_view().take(fe.deep_view().len() as int) =~= fe.deep_view());
        }
        if full_fn.len() == 0 {
            proof {
                assert(csem(full_fn.deep_view()) =~= Set::<Set<AtomV>>::empty());
                assert(fsem =~= Set::<Set<AtomV>>::empty()) by {
                    if exists|c: Set<AtomV>| fsem.contains(c) {
                        let c = choose|c: Set<AtomV>| fsem.contains(c);
                        assert(closure_image(ts, fsem).contains(closure_atoms(ts, c)));
                        assert(false);
                    }
                    assert forall|c: Set<AtomV>| !(#[trigger] fsem.contains(c)) by {}
                }
            }
            return None;
        }
        let mut vi: usize = 0;
        while vi < full_fn.len()
            invariant
                vi <= full_fn@.len(),
                cset_wf(full_fn.deep_view()),
                csem(full_fn.deep_view()) == closure_image(ts, fsem),
                forall|k: int|
                    0 <= k < vi ==> set_matches(
                        (#[trigger] full_fn.deep_view()[k]).to_set(),
                        sem(beh.return_type@),
                    ),
            decreases full_fn@.len() - vi,
        {
            if !matches_chain(&full_fn[vi], &beh.return_type) {
                proof {
                    assert(full_fn.deep_view()[vi as int] == full_fn@[vi as int].deep_view());
                    assert(csem(full_fn.deep_view()).contains(
                        full_fn.deep_view()[vi as int].to_set(),
                    ));
                    let c = choose|c: Set<AtomV>|
                        #[trigger] fsem.contains(c) && full_fn.deep_view()[vi as int].to_set()
                            == closure_atoms(ts, c);
                }
                return None;
            }
            assert(full_fn.deep_view()[vi as int] == full_fn@[vi as int].deep_view());
            vi = vi + 1;
        }
        proof {
            assert(fsem != Set::<Set<AtomV>>::empty()) by {
                assert(csem(full_fn.deep_view()).contains(full_fn.deep_view()[0].to_set()));
                let c = choose|c: Set<AtomV>|
                    #[trigger] fsem.contains(c) && full_fn.deep_view()[0].to_set()
                        == closure_atoms(ts, c);
            }
            assert forall|c: Set<AtomV>| #[trigger] fsem.contains(c) implies set_matches(
                closure_atoms(ts, c),
                sem(beh.return_type@),
            ) by {
                assert(closure_image(ts, fsem).contains(closure_atoms(ts, c)));
                let k = choose|k: int|
                    0 <= k < full_fn.deep_view().len() && closure_atoms(ts, c) == (
                    #[trigger] full_fn.deep_view()[k]).to_set();
            }
        }
        Some(full_fn)
    }

    /// The dispatcher: given a call site and the evaluated argument rows
    /// of every live branch, emits all candidate nodes.  A behavior
    /// whose arguments match expands into every qualifying function and
    /// every variant constant; when it yields none — or the name is no
    /// behavior — a plain function of the name, then a zero-arity flow
    /// reference, are tried in turn.  Only an empty candidate set over
    /// all branches is a failure.
    #[verifier::loop_isolation(false)]
    fn dispatch_call(
        &self,
        name: &str,
        states: Vec<(Context, Vec<ArgResult>)>,
        depth: u64,
        stack: &Vec<String>,
        Ghost(base): Ghost<Seq<ExecutionNodeV>>,
    ) -> (r: Result<Vec<(Context, ConstraintSet, usize)>, SynthesisError>)
        requires
            self.symbol_table.wf(),
            states_wf(states@, base),
        ensures
            (r matches Ok(rs) ==> rs@.len() > 0 && results_wf(rs@, base)),
            states@.len() == 1 ==> self.dispatch_law(
                name@,
                states@[0].1.deep_view(),
                states@[0].0.graph@,
                r,
            ),
            (match r {
                Err(SynthesisError::FlowNotFound(n)) => !has_flow(
                    self.symbol_table.flows@,
                    n@,
                ),
                Err(SynthesisError::VariableNotFound(n)) => !has_type(
                    self.symbol_table.types@,
                    n@,
                ) && !has_flow(self.symbol_table.flows@, n@),
                _ => true,
            }),
        decreases depth, 1int, 0nat,
    {
        let ghost single = states@.len() == 1;
        let mut results: Vec<(Context, ConstraintSet, usize)> = Vec::new();
        let mut si: usize = 0;
        while si < states.len()
            invariant
                si <= states@.len(),
                states_wf(states@, base),
                results_wf(results@, base),
                si == 0 ==> results@.len() == 0,
                single && si >= 1 ==> self.dispatch_yield(
                    name@,
                    states@[0].1.deep_view(),
                    states@[0].0.graph@,
                    results@,
                ),
            decreases states@.len() - si,
        {
            let ctx = &states[si].0;
            let arg_results = &states[si].1;
            let ghost argsv = arg_results.deep_view();
            assert(ctx_wf(*ctx) && base.is_prefix_of(ctx.graph@));
            let mut arg_ids: Vec<usize> = Vec::new();
            let mut j: usize = 0;
            while j < arg_results.len()
                invariant
                    j <= arg_results@.len(),
                    arg_ids@.len() == j,
                    forall|t: int|
                        0 <= t < j ==> (#[trigger] arg_ids@[t]) < ctx.graph@.len(),
                    forall|t: int| 0 <= t < j ==> #[trigger] arg_ids@[t] == argsv[t].node_id,
                decreases arg_results@.len() - j,
            {
                arg_ids.push(arg_results[j].node_id);
                assert(argsv[j as int] == arg_results@[j as int]@);
                j = j + 1;
            }
            assert(arg_ids@ =~= row_ids(argsv));
            // A behavior claims the call only when it actually yields
            // candidates; otherwise the direct function of the same
            // name, then a flow reference, are tried in turn.
            let results_before = results.len();
            match self.symbol_table.get_behavior(name) {
                Option::Some(beh) => {
                    let ghost behv = *beh;
                    let ghost ts = self.symbol_table.types@;
                    let ghost fnsv = self.symbol_table.functions@;
                    if self.check_args_match(&beh.args, arg_results) {
                        // Every function whose parameters subsume the
                        // arguments and whose fully expanded return
                        // subsumes the behavior's requirement.
                        let mut fi: usize = 0;
                        while fi < self.symbol_table.functions.len()
                            invariant
                                fi <= self.symbol_table.functions@.len(),
                                results_wf(results@, base),
                                states_wf(states@, base),
                                si < states@.len(),
                                ctx_wf(*ctx) && base.is_prefix_of(ctx.graph@),
                                ctx == &states@[si as int].0,
                                arg_ids@.len() == arg_results@.len(),
                                forall|t: int|
                                    0 <= t < arg_ids@.len() ==> (#[trigger] arg_ids@[t])
                                        < ctx.graph@.len(),
                                ts == self.symbol_table.types@,
                                fnsv == self.symbol_table.functions@,
                                results@.len() == results_before + yield_count(
                                    ts,
                                    fnsv,
                                    fi as int,
                                    behv,
                                    argsv,
                                ),
                                single && si == 0 ==> forall|fp: int|
                                    0 <= fp < fi && behavior_candidate(
                                        ts,
                                        #[trigger] fnsv[fp],
                                        behv,
                                        argsv,
                                    ) ==> candidate_branch(
                                        results@[results_before + yield_count(
                                            ts,
                                            fnsv,
                                            fp,
                                            behv,
                                            argsv,
                                        ) as int],
                                        states@[0].0.graph@,
                                        fnsv[fp],
                                        argsv,
                                        ts,
                                    ),
                            decreases self.symbol_table.functions@.len() - fi,
                        {
                            let f = &self.symbol_table.functions[fi];
                            assert(*f == fnsv[fi as int]);
                            match self.candidate_return(f, beh, arg_results) {
                                Option::Some(full_fn) => {
                                    proof {
                                        assert(behavior_candidate(ts, fnsv[fi as int], behv, argsv));
                                        assert(yield_count(ts, fnsv, fi as int + 1, behv, argsv)
                                            == yield_count(ts, fnsv, fi as int, behv, argsv) + 1);
                                    }
                                    let mut ctx2 = ctx.duplicate();
                                    let node = ExecutionNode::Operation {
                                        op: OperatorOp::FunctionCall(f.name.clone()),
                                        args: copy_ids(&arg_ids),
                                    };
                                    let ghost nodeg = node@;
                                    let id = ctx2.add_node(node);
                                    proof {
                                        lemma_prefix_extend(ctx.graph@, nodeg);
                                        lemma_prefix_trans(base, ctx.graph@, ctx2.graph@);
                                    }
                                    let ghost respre = results@;
                                    push_result(&mut results, (ctx2, full_fn, id), Ghost(base));
                                    proof {
                                        if single && si == 0 {
                                            let yc_fi = yield_count(
                                                ts,
                                                fnsv,
                                                fi as int,
                                                behv,
                                                argsv,
                                            );
                                            assert(results@[results_before + yc_fi as int] == (
                                            ctx2,
                                            full_fn,
                                            id,
                                            ));
                                            assert(nodeg == (ExecutionNodeV::Operation {
                                                op: OperatorOpV::FunctionCall(
                                                    fnsv[fi as int].name@,
                                                ),
                                                args: row_ids(argsv),
                                            }));
                                            lemma_candidates_extend(
                                                results@,
                                                respre,
                                                results_before as int,
                                                states@[0].0.graph@,
                                                ts,
                                                fnsv,
                                                behv,
                                                argsv,
                                                fi as int,
                                            );
                                        }
                                    }
                                },
                                Option::None => {
                                    proof {
                                        assert(!behavior_candidate(
                                            ts,
                                            fnsv[fi as int],
                                            behv,
                                            argsv,
                                        ));
                                        assert(yield_count(ts, fnsv, fi as int + 1, behv, argsv)
                                            == yield_count(ts, fnsv, fi as int, behv, argsv));
                                    }
                                },
                            }
                            fi = fi + 1;
                        }
                        // Every variant of the behavior's return type
                        // becomes a constant candidate.
                        let ghost yc = yield_count(ts, fnsv, fnsv.len() as int, behv, argsv);
                        let ghost ret_sem = sem(behv.return_type@);
                        let variants = self.collect_variants(&beh.return_type);
                        proof {
                            assert(variants@.len() == variants_of(behv.return_type@, ts).len());
                        }
                        let mut vi: usize = 0;
                        while vi < variants.len()
                            invariant
                                vi <= variants@.len(),
                                results_wf(results@, base),
                                states_wf(states@, base),
                                si < states@.len(),
                                ctx_wf(*ctx) && base.is_prefix_of(ctx.graph@),
                                ctx == &states@[si as int].0,
                                results@.len() == results_before + yc + vi,
                                ret_sem == sem(behv.return_type@),
                                single && si == 0 ==> forall|k: int|
                                    0 <= k < vi ==> variant_branch(
                                        #[trigger] results@[results_before + yc + k],
                                        states@[0].0.graph@,
                                        ret_sem,
                                        variants.deep_view()[k],
                                    ),
                                single && si == 0 ==> forall|fp: int|
                                    0 <= fp < fnsv.len() && behavior_candidate(
                                        ts,
                                        #[trigger] fnsv[fp],
                                        behv,
                                        argsv,
                                    ) ==> candidate_branch(
                                        results@[results_before + yield_count(
                                            ts,
                                            fnsv,
                                            fp,
                                            behv,
                                            argsv,
                                        ) as int],
                                        states@[0].0.graph@,
                                        fnsv[fp],
                                        argsv,
                                        ts,
                                    ),
                            decreases variants@.len() - vi,
                        {
                            let v = &variants[vi];
                            let mut ctx2 = ctx.duplicate();
                            let node = ExecutionNode::Constant {
                                value: v.clone(),
                                type_tag: "Constant".to_owned(),
                            };
                            let id = ctx2.add_node(node);
                            proof {
                                lemma_prefix_extend(ctx.graph@, node@);
                                lemma_prefix_trans(base, ctx.graph@, ctx2.graph@);
                            }
                            let e = expand(&beh.return_type);
                            let mut sel: ConstraintSet = Vec::new();
                            let probe = Atom::Type(v.clone());
                            let ghost vv = variants.deep_view()[vi as int];
                            assert(probe@ == AtomV::Type(vv)) by {
                                assert(variants.deep_view()[vi as int] == variants@[vi as int]@);
                            }
                            proof {
                                assert(csem(sel.deep_view()) =~= Set::new(
                                    |c: Set<AtomV>|
                                        csem(e.deep_view().take(0)).contains(c) && c.contains(
                                            AtomV::Type(vv),
                                        ),
                                ));
                            }
                            let mut ci: usize = 0;
                            while ci < e.len()
                                invariant
                                    ci <= e@.len(),
                                    cset_wf(e.deep_view()),
                                    cset_wf(sel.deep_view()),
                                    csem(e.deep_view()) == sem(behv.return_type@),
                                    probe@ == AtomV::Type(vv),
                                    csem(sel.deep_view()) == Set::new(
                                        |c: Set<AtomV>|
                                            csem(e.deep_view().take(ci as int)).contains(c)
                                                && c.contains(AtomV::Type(vv)),
                                    ),
                                decreases e@.len() - ci,
                            {
                                assert(chain_wf(e.deep_view()[ci as int]));
                                assert(e.deep_view()[ci as int] == e@[ci as int].deep_view());
                                proof {
                                    crate::constraints::lemma_csem_take(e.deep_view(), ci as int);
                                }
                                if crate::constraints::contains_atom(&e[ci], &probe) {
                                    crate::constraints::push_chain(
                                        &mut sel,
                                        crate::constraints::clone_chain(&e[ci]),
                                    );
                                    assert(csem(sel.deep_view()) =~= Set::new(
                                        |c: Set<AtomV>|
                                            csem(e.deep_view().take(ci as int + 1)).contains(c)
                                                && c.contains(AtomV::Type(vv)),
                                    ));
                                } else {
                                    assert(csem(sel.deep_view()) =~= Set::new(
                                        |c: Set<AtomV>|
                                            csem(e.deep_view().take(ci as int + 1)).contains(c)
                                                && c.contains(AtomV::Type(vv)),
                                    ));
                                }
                                ci = ci + 1;
                            }
                            proof {
                                assert(e.deep_view().take(e.deep_view().len() as int)
                                    =~= e.deep_view());
                            }
                            if sel.len() == 0 {
                                proof {
                                    assert(csem(sel.deep_view()) =~= Set::<Set<AtomV>>::empty());
                                    assert(variant_chain_sets(ret_sem, vv) =~= set![
                                        set![AtomV::Type(vv)],
                                    ]) by {
                                        let holding = Set::new(
                                            |c: Set<AtomV>|
                                                ret_sem.contains(c) && c.contains(
                                                    AtomV::Type(vv),
                                                ),
                                        );
                                        if exists|c: Set<AtomV>| holding.contains(c) {
                                            let c = choose|c: Set<AtomV>| holding.contains(c);
                                            assert(csem(sel.deep_view()).contains(c));
                                            assert(false);
                                        }
                                    }
                                }
                                let mut ch: Vec<Atom> = Vec::new();
                                ch.push(Atom::Type(v.clone()));
                                assert(ch.deep_view() =~= seq![AtomV::Type(vv)]) by {
                                    assert(ch.deep_view()[0] == ch@[0]@);
                                }
                                assert(chain_wf(ch.deep_view()));
                                crate::constraints::push_chain(&mut sel, ch);
                                proof {
                                    assert(seq![AtomV::Type(vv)].to_set() =~= set![
                                        AtomV::Type(vv),
                                    ]) by {
                                        assert(seq![AtomV::Type(vv)][0] == AtomV::Type(vv));
                                    }
                                    assert(csem(sel.deep_view()) =~= set![set![AtomV::Type(vv)]]);
                                    assert(csem(sel.deep_view()) == variant_chain_sets(
                                        ret_sem,
                                        vv,
                                    ));
                                }
                            } else {
                                proof {
                                    assert(csem(sel.deep_view()).contains(
                                        sel.deep_view()[0].to_set(),
                                    ));
                                    assert(variant_chain_sets(ret_sem, vv) == csem(
                                        sel.deep_view(),
                                    )) by {
                                        let holding = Set::new(
                                            |c: Set<AtomV>|
                                                ret_sem.contains(c) && c.contains(
                                                    AtomV::Type(vv),
                                                ),
                                        );
                                        assert(holding =~= csem(sel.deep_view()));
                                        assert(exists|c: Set<AtomV>| holding.contains(c));
                                    }
                                }
                            }
                            let ghost respre = results@;
                            push_result(&mut results, (ctx2, sel, id), Ghost(base));
                            proof {
                                if single && si == 0 {
                                    assert(results@[results_before + yc + vi] == (ctx2, sel, id));
                                    assert(variants.deep_view()[vi as int] == variants@[
                                        vi as int
                                    ]@);
                                    assert(variant_branch(
                                        results@[results_before + yc + vi],
                                        states@[0].0.graph@,
                                        ret_sem,
                                        variants.deep_view()[vi as int],
                                    ));
                                    assert forall|k: int| 0 <= k < vi + 1 implies variant_branch(
                                        #[trigger] results@[results_before + yc + k],
                                        states@[0].0.graph@,
                                        ret_sem,
                                        variants.deep_view()[k],
                                    ) by {
                                        if k < vi {
                                            assert(results@[results_before + yc + k] == respre[
                                                results_before + yc + k
                                            ]);
                                        }
                                    }
                                    lemma_candidates_preserved(
                                        results@,
                                        respre,
                                        results_before as int,
                                        states@[0].0.graph@,
                                        ts,
                                        fnsv,
                                        behv,
                                        argsv,
                                    );
                                }
                            }
                            vi = vi + 1;
                        }
                        proof {
                            // What the matched behavior produced here,
                            // indexed by its table slot.
                            assert forall|bi: int|
                                0 <= bi < self.symbol_table.behaviors@.len() && (
                                #[trigger] self.symbol_table.behaviors@[bi]).name@ == name@
                                    && single && si == 0 implies args_bind(
                                self.symbol_table.behaviors@[bi].args@,
                                states@[0].1.deep_view(),
                            ) && results@.len() == results_before + self.expected_of(
                                bi,
                                states@[0].1.deep_view(),
                            ) && (forall|k: int|
                                0 <= k < variants_of(
                                    self.symbol_table.behaviors@[bi].return_type@,
                                    self.symbol_table.types@,
                                ).len() ==> variant_branch(
                                    #[trigger] results@[results_before + yield_count(
                                        self.symbol_table.types@,
                                        self.symbol_table.functions@,
                                        self.symbol_table.functions@.len() as int,
                                        self.symbol_table.behaviors@[bi],
                                        states@[0].1.deep_view(),
                                    ) + k],
                                    states@[0].0.graph@,
                                    sem(self.symbol_table.behaviors@[bi].return_type@),
                                    variants_of(
                                        self.symbol_table.behaviors@[bi].return_type@,
                                        self.symbol_table.types@,
                                    )[k],
                                )) && (forall|fp: int|
                                0 <= fp < self.symbol_table.functions@.len()
                                    && behavior_candidate(
                                    self.symbol_table.types@,
                                    #[trigger] self.symbol_table.functions@[fp],
                                    self.symbol_table.behaviors@[bi],
                                    states@[0].1.deep_view(),
                                ) ==> candidate_branch(
                                    results@[results_before + yield_count(
                                        self.symbol_table.types@,
                                        self.symbol_table.functions@,
                                        fp,
                                        self.symbol_table.behaviors@[bi],
                                        states@[0].1.deep_view(),
                                    ) as int],
                                    states@[0].0.graph@,
                                    self.symbol_table.functions@[fp],
                                    states@[0].1.deep_view(),
                                    self.symbol_table.types@,
                                )) by {
                                assert(self.symbol_table.behaviors@[bi] == behv);
                                assert(argsv == states@[0].1.deep_view());
                            }
                        }
                    } else {
                        proof {
                            assert forall|bi: int|
                                0 <= bi < self.symbol_table.behaviors@.len() && (
                                #[trigger] self.symbol_table.behaviors@[bi]).name@ == name@
                                    && single && si == 0 implies !args_bind(
                                self.symbol_table.behaviors@[bi].args@,
                                states@[0].1.deep_view(),
                            ) by {
                                assert(self.symbol_table.behaviors@[bi] == behv);
                                assert(argsv == states@[0].1.deep_view());
                            }
                        }
                    }
                },
                Option::None => {},
            }
            let mut found = results.len() > results_before;
            if !found {
                match self.symbol_table.get_function(name) {
                    Option::Some(f) => {
                        let ghost fv = *f;
                        if self.check_args_match(&f.params, arg_results) {
                            found = true;
                            let mut ctx2 = ctx.duplicate();
                            let node = ExecutionNode::Operation {
                                op: OperatorOp::FunctionCall(f.name.clone()),
                                args: copy_ids(&arg_ids),
                            };
                            let ghost nodeg = node@;
                            let id = ctx2.add_node(node);
                            proof {
                                lemma_prefix_extend(ctx.graph@, nodeg);
                                lemma_prefix_trans(base, ctx.graph@, ctx2.graph@);
                            }
                            let rc = expand(&f.return_type);
                            push_result(&mut results, (ctx2, rc, id), Ghost(base));
                            proof {
                                if single && si == 0 {
                                    assert(results@[results_before as int] == (ctx2, rc, id));
                                    assert forall|fi: int|
                                        0 <= fi < self.symbol_table.functions@.len() && (
                                        #[trigger] self.symbol_table.functions@[fi]).name@
                                            == name@ implies args_bind(
                                        self.symbol_table.functions@[fi].params@,
                                        argsv,
                                    ) && results@.len() == results_before + 1 && fallback_branch(
                                        results@[results_before as int],
                                        states@[0].0.graph@,
                                        self.symbol_table.functions@[fi],
                                        argsv,
                                    ) by {
                                        assert(self.symbol_table.functions@[fi] == fv);
                                        assert(nodeg == (ExecutionNodeV::Operation {
                                            op: OperatorOpV::FunctionCall(fv.name@),
                                            args: row_ids(argsv),
                                        }));
                                    }
                                }
                            }
                        } else {
                            proof {
                                if single && si == 0 {
                                    assert forall|fi: int|
                                        0 <= fi < self.symbol_table.functions@.len() && (
                                        #[trigger] self.symbol_table.functions@[fi]).name@
                                            == name@ implies !args_bind(
                                        self.symbol_table.functions@[fi].params@,
                                        argsv,
                                    ) by {
                                        assert(self.symbol_table.functions@[fi] == fv);
                                    }
                                }
                            }
                        }
                    },
                    Option::None => {},
                }
            }
            if !found {
                if self.symbol_table.get_flow(name).is_some() && arg_results.len() == 0 {
                    if depth == 0 {
                        return Err(SynthesisError::RecursionLimitExceeded(name.to_owned()));
                    }
                    let flow_ctxs = match self.synthesize_at(name, depth - 1, stack) {
                        Ok(cs) => cs,
                        Err(e) => {
                            return Err(e);
                        },
                    };
                    let mut fk: usize = 0;
                    while fk < flow_ctxs.len()
                        invariant
                            fk <= flow_ctxs@.len(),
                            results_wf(results@, base),
                            states_wf(states@, base),
                            si < states@.len(),
                            ctx_wf(*ctx) && base.is_prefix_of(ctx.graph@),
                            ctx == &states@[si as int].0,
                            forall|t: int|
                                0 <= t < flow_ctxs@.len() ==> ctx_wf(#[trigger] flow_ctxs@[t]),
                        decreases flow_ctxs@.len() - fk,
                    {
                        let fc = &flow_ctxs[fk];
                        match fc.get_var("result") {
                            Option::Some(res) => {
                                proof {
                                    let w = choose|w: int|
                                        0 <= w < fc.variables@.len() && *res
                                            == #[trigger] fc.variables@[w];
                                    assert(cset_wf(
                                        fc.variables@[w].constraint_set.deep_view(),
                                    ));
                                }
                                let cs = clone_cset(&res.constraint_set);
                                let mut ctx2 = ctx.duplicate();
                                let node = ExecutionNode::Source {
                                    name: flow_label(name),
                                    type_tag: "FlowReference".to_owned(),
                                };
                                let id = ctx2.add_node(node);
                                proof {
                                    lemma_prefix_extend(ctx.graph@, node@);
                                    lemma_prefix_trans(base, ctx.graph@, ctx2.graph@);
                                }
                                push_result(&mut results, (ctx2, cs, id), Ghost(base));
                            },
                            Option::None => {
                                return Err(SynthesisError::ConstraintFailed(name.to_owned()));
                            },
                        }
                        fk = fk + 1;
                    }
                }
            }
            proof {
                if single {
                    assert(si == 0);
                    assert(results_before == 0);
                    assert(self.dispatch_yield(
                        name@,
                        states@[0].1.deep_view(),
                        states@[0].0.graph@,
                        results@,
                    ));
                }
            }
            si = si + 1;
        }
        if results.len() == 0 {
            let r: Result<Vec<(Context, ConstraintSet, usize)>, SynthesisError> = Err(
                SynthesisError::NoImplFound(name.to_owned()),
            );
            proof {
                if single {
                    assert(self.dispatch_law(
                        name@,
                        states@[0].1.deep_view(),
                        states@[0].0.graph@,
                        r,
                    ));
                }
            }
            r
        } else {
            let ghost emitted = results@;
            let r: Result<Vec<(Context, ConstraintSet, usize)>, SynthesisError> = Ok(results);
            proof {
                if single {
                    assert(r matches Ok(rs) && rs@ == emitted);
                    assert(self.dispatch_law(
                        name@,
                        states@[0].1.deep_view(),
                        states@[0].0.graph@,
                        r,
                    ));
                }
            }
            r
        }
    }

    /// The exact result the evaluator owes on the structural cases: a
    /// literal becomes one constant node, a bound identifier returns its
    /// stored state with the context untouched, a type identifier
    /// becomes one universe source per component (or one for the type
    /// itself) carrying the property closure, and an identifier that
    /// resolves to nothing is an error naming it.  Calls, operators and
    /// flow references recurse and are pinned by the dispatcher's own
    /// contract.
    pub open spec fn eval_case_exact(
        &self,
        expr: Expr,
        context: Context,
        r: Result<Vec<(Context, ConstraintSet, usize)>, SynthesisError>,
    ) -> bool {
        match expr {
            Expr::Literal(lit) => r matches Ok(rs) && rs@.len() == 1 && branch_is(
                rs@[0],
                context.variables@,
                context.graph@.push(
                    (ExecutionNodeV::Constant { value: literal_text(lit), type_tag: "Constant"@ }),
                ),
                seq![seq![AtomV::Type("Constant"@)]],
                context.graph@.len() as int,
            ),
            Expr::Identifier(ident) => {
                if has_var(context.variables@, ident@) {
                    r matches Ok(rs) && rs@.len() == 1 && rs@[0].0 == context && (forall|w: int|
                        0 <= w < context.variables@.len() && (
                        #[trigger] context.variables@[w]).name@ == ident@
                            ==> rs@[0].1.deep_view()
                            == context.variables@[w].constraint_set.deep_view() && rs@[0].2
                            == context.variables@[w].node_id)
                } else if has_type(self.symbol_table.types@, ident@) {
                    forall|i: int|
                        0 <= i < self.symbol_table.types@.len() && (
                        #[trigger] self.symbol_table.types@[i]).name@ == ident@
                            ==> self.universe_exact(self.symbol_table.types@[i], ident@, context, r)
                } else if has_flow(self.symbol_table.flows@, ident@) {
                    // Importing another flow's result: every branch is
                    // this context extended by one flow-result source;
                    // one branch arises per context of the synthesized
                    // flow, whose own results the recursion pins.
                    r matches Ok(rs) ==> (forall|k: int|
                        0 <= k < rs@.len() ==> branch_frame(
                            #[trigger] rs@[k],
                            context.variables@,
                            context.graph@.push(
                                (ExecutionNodeV::Source {
                                    name: "FlowResult("@ + ident@ + ")"@,
                                    type_tag: "FlowReference"@,
                                }),
                            ),
                            context.graph@.len() as int,
                        ))
                } else {
                    r matches Err(e) && (e matches SynthesisError::VariableNotFound(n) && n@
                        == ident@)
                }
            },
            Expr::Call { name, args } => if args@.len() == 0 {
                self.dispatch_law(name@, Seq::empty(), context.graph@, r)
            } else if all_bound_idents(args@, context.variables@) {
                self.dispatch_law(name@, bound_row(args@, context.variables@), context.graph@, r)
            } else {
                true
            },
            Expr::BinaryOp { left, op, right } => if arith_op(op) && bound_ident(
                *left,
                context.variables@,
            ) && bound_ident(*right, context.variables@) {
                // Operators are sugar: the same dispatch as a call to
                // the corresponding behavior on the two operands.
                self.dispatch_law(
                    binop_behavior(op),
                    binop_row(*left, *right, context.variables@),
                    context.graph@,
                    r,
                )
            } else {
                true
            },
        }
    }

    /// What using a type as a universe owes: one branch per declared
    /// component, or a single branch for the type itself, each a source
    /// node whose chains are the property closure of the universe name.
    pub open spec fn universe_exact(
        &self,
        info: TypeInfo,
        ident: Seq<char>,
        context: Context,
        r: Result<Vec<(Context, ConstraintSet, usize)>, SynthesisError>,
    ) -> bool {
        match info.components {
            Option::Some(comps) => if comps@.len() > 0 {
                r matches Ok(rs) && rs@.len() == comps@.len() && (forall|k: int|
                    0 <= k < comps@.len() ==> branch_frame(
                        #[trigger] rs@[k],
                        context.variables@,
                        context.graph@.push(
                            (ExecutionNodeV::Source {
                                name: "Universe("@ + comps@[k]@ + ")"@,
                                type_tag: comps@[k]@,
                            }),
                        ),
                        context.graph@.len() as int,
                    ) && closure_chain_of(
                        self.symbol_table.types@,
                        comps@[k]@,
                        rs@[k].1.deep_view(),
                    ))
            } else {
                self.plain_universe_exact(ident, context, r)
            },
            Option::None => self.plain_universe_exact(ident, context, r),
        }
    }

    /// The single-branch universe: one source node named after the type,
    /// carrying the closure of the type's own atom.
    pub open spec fn plain_universe_exact(
        &self,
        ident: Seq<char>,
        context: Context,
        r: Result<Vec<(Context, ConstraintSet, usize)>, SynthesisError>,
    ) -> bool {
        r matches Ok(rs) && rs@.len() == 1 && branch_frame(
            rs@[0],
            context.variables@,
            context.graph@.push(
                (ExecutionNodeV::Source { name: "Universe("@ + ident + ")"@, type_tag: ident }),
            ),
            context.graph@.len() as int,
        ) && closure_chain_of(self.symbol_table.types@, ident, rs@[0].1.deep_view())
    }

    /// Evaluates one expression under one context, returning every
    /// branch as its own context with the chains the value may satisfy
    /// and the node that computes it.
    #[verifier::loop_isolation(false)]
    fn eval_at(
        &self,
        expr: &Expr,
        context: Context,
        depth: u64,
        stack: &Vec<String>,
    ) -> (r: Result<
        Vec<(Context, ConstraintSet, usize)>,
        SynthesisError,
    >)
        requires
            self.symbol_table.wf(),
            ctx_wf(context),
        ensures
            (r matches Ok(rs) ==> results_wf(rs@, context.graph@)),
            self.eval_case_exact(*expr, context, r),
            (match r {
                Err(SynthesisError::FlowNotFound(n)) => !has_flow(
                    self.symbol_table.flows@,
                    n@,
                ),
                Err(SynthesisError::VariableNotFound(n)) => !has_type(
                    self.symbol_table.types@,
                    n@,
                ) && !has_flow(self.symbol_table.flows@, n@),
                _ => true,
            }),
        decreases depth, 2int, expr_size(*expr),
    {
        let ghost base = context.graph@;
        match expr {
            Expr::Literal(lit) => {
                let mut ctx = context;
                let value: String = match lit {
                    crate::ast::Literal::Integer(i) => i64_to_string(*i),
                    crate::ast::Literal::Text(t) => t.clone(),
                    crate::ast::Literal::Boolean(b) => if *b {
                        "true".to_owned()
                    } else {
                        "false".to_owned()
                    },
                };
                assert(value@ == literal_text(*lit));
                let node = ExecutionNode::Constant { value, type_tag: "Constant".to_owned() };
                let ghost nodeg = node@;
                let id = ctx.add_node(node);
                proof {
                    lemma_prefix_extend(base, nodeg);
                }
                let mut chain: Vec<Atom> = Vec::new();
                chain.push(Atom::Type("Constant".to_owned()));
                assert(chain.deep_view() =~= seq![AtomV::Type("Constant"@)]);
                assert(chain_wf(chain.deep_view()));
                let mut cs: ConstraintSet = Vec::new();
                cs.push(chain);
                proof {
                    assert(cs.deep_view() =~= seq![seq![AtomV::Type("Constant"@)]]);
                    assert(cset_wf(cs.deep_view()));
                }
                let mut rs: Vec<(Context, ConstraintSet, usize)> = Vec::new();
                push_result(&mut rs, (ctx, cs, id), Ghost(base));
                proof {
                    assert(rs@[0].0 == ctx);
                    assert(bindings_equiv(ctx.variables@, context.variables@));
                    assert(self.eval_case_exact(*expr, context, Ok(rs)));
                }
                Ok(rs)
            },
            Expr::Identifier(ident) => {
                match context.get_var(ident.as_str()) {
                    Option::Some(v) => {
                        let ghost vst = *v;
                        proof {
                            let w = choose|w: int|
                                0 <= w < context.variables@.len() && *v
                                    == #[trigger] context.variables@[w];
                            assert(cset_wf(context.variables@[w].constraint_set.deep_view()));
                            assert(context.variables@[w].node_id < context.graph@.len());
                            assert(has_var(context.variables@, ident@));
                        }
                        let cs = clone_cset(&v.constraint_set);
                        let id = v.node_id;
                        proof {
                            assert(base =~= base.subrange(0, base.len() as int));
                        }
                        let mut rs: Vec<(Context, ConstraintSet, usize)> = Vec::new();
                        push_result(&mut rs, (context, cs, id), Ghost(base));
                        proof {
                            let i = choose|i: int|
                                0 <= i < context.variables@.len() && vst
                                    == #[trigger] context.variables@[i];
                            assert forall|w: int|
                                0 <= w < context.variables@.len() && (
                                #[trigger] context.variables@[w]).name@ == ident@ implies
                                rs@[0].1.deep_view()
                                == context.variables@[w].constraint_set.deep_view() && rs@[0].2
                                == context.variables@[w].node_id by {
                                if w != i {
                                    assert(context.variables@[i].name@ == ident@);
                                    assert(false);
                                }
                            }
                            assert(self.eval_case_exact(*expr, context, Ok(rs)));
                        }
                        Ok(rs)
                    },
                    Option::None => {
                        if let Option::Some(info) = self.symbol_table.get_type(ident.as_str()) {
                            let ghost infov = *info;
                            let ghost ts = self.symbol_table.types@;
                            let mut rs: Vec<(Context, ConstraintSet, usize)> = Vec::new();
                            match &info.components {
                                Option::Some(comps) if comps.len() > 0 => {
                                    // A universe with components branches
                                    // into one source per component.
                                    let mut mi: usize = 0;
                                    while mi < comps.len()
                                        invariant
                                            mi <= comps@.len(),
                                            results_wf(rs@, base),
                                            ctx_wf(context),
                                            base == context.graph@,
                                            ts == self.symbol_table.types@,
                                            rs@.len() == mi,
                                            forall|k: int|
                                                0 <= k < mi ==> branch_frame(
                                                    #[trigger] rs@[k],
                                                    context.variables@,
                                                    base.push(
                                                        (ExecutionNodeV::Source {
                                                            name: "Universe("@ + comps@[k]@
                                                                + ")"@,
                                                            type_tag: comps@[k]@,
                                                        }),
                                                    ),
                                                    base.len() as int,
                                                ) && closure_chain_of(
                                                    ts,
                                                    comps@[k]@,
                                                    rs@[k].1.deep_view(),
                                                ),
                                        decreases comps@.len() - mi,
                                    {
                                        let comp = &comps[mi];
                                        let mut ctx2 = context.duplicate();
                                        let node = ExecutionNode::Source {
                                            name: universe_label(comp.as_str()),
                                            type_tag: comp.clone(),
                                        };
                                        let ghost nodeg = node@;
                                        let id = ctx2.add_node(node);
                                        proof {
                                            lemma_prefix_extend(base, nodeg);
                                            assert(nodeg == (ExecutionNodeV::Source {
                                                name: "Universe("@ + comps@[mi as int]@ + ")"@,
                                                type_tag: comps@[mi as int]@,
                                            }));
                                        }
                                        let mut seed: Vec<Atom> = Vec::new();
                                        seed.push(Atom::Type(comp.clone()));
                                        assert(seed.deep_view() =~= seq![
                                            AtomV::Type(comps@[mi as int]@),
                                        ]);
                                        proof {
                                            assert(seed.deep_view().to_set() =~= set![
                                                AtomV::Type(comps@[mi as int]@),
                                            ]) by {
                                                assert(seed.deep_view()[0] == AtomV::Type(
                                                    comps@[mi as int]@,
                                                ));
                                                assert(seed.deep_view().len() == 1);
                                            }
                                        }
                                        let full = self.fully_expand_chain(seed);
                                        proof {
                                            lemma_closure_of_expansion(
                                                ts,
                                                set![AtomV::Type(comps@[mi as int]@)],
                                                full.deep_view().to_set(),
                                            );
                                        }
                                        let mut cs: ConstraintSet = Vec::new();
                                        cs.push(full);
                                        proof {
                                            assert(cs.deep_view()[0] == cs@[0].deep_view());
                                            assert(cset_wf(cs.deep_view()));
                                            assert(closure_chain_of(
                                                ts,
                                                comps@[mi as int]@,
                                                cs.deep_view(),
                                            ));
                                        }
                                        let ghost rspre = rs@;
                                        push_result(&mut rs, (ctx2, cs, id), Ghost(base));
                                        proof {
                                            assert(rs@[mi as int].0 == ctx2);
                                            assert(bindings_equiv(
                                                ctx2.variables@,
                                                context.variables@,
                                            ));
                                            assert forall|k: int|
                                                0 <= k < mi + 1 implies branch_frame(
                                                #[trigger] rs@[k],
                                                context.variables@,
                                                base.push(
                                                    (ExecutionNodeV::Source {
                                                        name: "Universe("@ + comps@[k]@ + ")"@,
                                                        type_tag: comps@[k]@,
                                                    }),
                                                ),
                                                base.len() as int,
                                            ) && closure_chain_of(
                                                ts,
                                                comps@[k]@,
                                                rs@[k].1.deep_view(),
                                            ) by {
                                                if k < mi {
                                                    assert(rs@[k] == rspre[k]);
                                                }
                                            }
                                        }
                                        mi = mi + 1;
                                    }
                                },
                                _ => {
                                    let mut ctx2 = context;
                                    let node = ExecutionNode::Source {
                                        name: universe_label(ident.as_str()),
                                        type_tag: ident.clone(),
                                    };
                                    let ghost nodeg = node@;
                                    let id = ctx2.add_node(node);
                                    proof {
                                        lemma_prefix_extend(base, nodeg);
                                        assert(nodeg == (ExecutionNodeV::Source {
                                            name: "Universe("@ + ident@ + ")"@,
                                            type_tag: ident@,
                                        }));
                                    }
                                    let mut seed: Vec<Atom> = Vec::new();
                                    seed.push(Atom::Type(ident.clone()));
                                    assert(seed.deep_view() =~= seq![AtomV::Type(ident@)]);
                                    proof {
                                        assert(seed.deep_view().to_set() =~= set![
                                            AtomV::Type(ident@),
                                        ]) by {
                                            assert(seed.deep_view()[0] == AtomV::Type(ident@));
                                            assert(seed.deep_view().len() == 1);
                                        }
                                    }
                                    let full = self.fully_expand_chain(seed);
                                    proof {
                                        lemma_closure_of_expansion(
                                            ts,
                                            set![AtomV::Type(ident@)],
                                            full.deep_view().to_set(),
                                        );
                                    }
                                    let mut cs: ConstraintSet = Vec::new();
                                    cs.push(full);
                                    proof {
                                        assert(cs.deep_view()[0] == cs@[0].deep_view());
                                        assert(cset_wf(cs.deep_view()));
                                        assert(closure_chain_of(ts, ident@, cs.deep_view()));
                                    }
                                    push_result(&mut rs, (ctx2, cs, id), Ghost(base));
                                    proof {
                                        assert(rs@[0].0 == ctx2);
                                        assert(bindings_equiv(
                                            ctx2.variables@,
                                            context.variables@,
                                        ));
                                    }
                                },
                            }
                            proof {
                                let j = choose|j: int|
                                    0 <= j < ts.len() && infov == #[trigger] ts[j];
                                assert forall|i: int|
                                    0 <= i < ts.len() && (#[trigger] ts[i]).name@
                                        == ident@ implies self.universe_exact(
                                    ts[i],
                                    ident@,
                                    context,
                                    Ok(rs),
                                ) by {
                                    assert(ts[i] == infov);
                                }
                                assert(self.eval_case_exact(*expr, context, Ok(rs)));
                            }
                            Ok(rs)
                        } else if self.symbol_table.get_flow(ident.as_str()).is_some() {
                            if depth == 0 {
                                return Err(
                                    SynthesisError::RecursionLimitExceeded(ident.clone()),
                                );
                            }
                            let flow_ctxs = match self.synthesize_at(ident.as_str(), depth - 1, stack) {
                                Ok(cs) => cs,
                                Err(e) => {
                                    return Err(e);
                                },
                            };
                            let mut rs: Vec<(Context, ConstraintSet, usize)> = Vec::new();
                            let mut fk: usize = 0;
                            while fk < flow_ctxs.len()
                                invariant
                                    fk <= flow_ctxs@.len(),
                                    results_wf(rs@, base),
                                    ctx_wf(context),
                                    base == context.graph@,
                                    forall|t: int|
                                        0 <= t < flow_ctxs@.len() ==> ctx_wf(
                                            #[trigger] flow_ctxs@[t],
                                        ),
                                    forall|k: int|
                                        0 <= k < rs@.len() ==> branch_frame(
                                            #[trigger] rs@[k],
                                            context.variables@,
                                            context.graph@.push(
                                                (ExecutionNodeV::Source {
                                                    name: "FlowResult("@ + ident@ + ")"@,
                                                    type_tag: "FlowReference"@,
                                                }),
                                            ),
                                            context.graph@.len() as int,
                                        ),
                                decreases flow_ctxs@.len() - fk,
                            {
                                let fc = &flow_ctxs[fk];
                                match fc.get_var("result") {
                                    Option::Some(res) => {
                                        proof {
                                            let w = choose|w: int|
                                                0 <= w < fc.variables@.len() && *res
                                                    == #[trigger] fc.variables@[w];
                                            assert(cset_wf(
                                                fc.variables@[w].constraint_set.deep_view(),
                                            ));
                                        }
                                        let cs = clone_cset(&res.constraint_set);
                                        let mut ctx2 = context.duplicate();
                                        let node = ExecutionNode::Source {
                                            name: flow_label(ident.as_str()),
                                            type_tag: "FlowReference".to_owned(),
                                        };
                                        let ghost nodeg = node@;
                                        let id = ctx2.add_node(node);
                                        proof {
                                            lemma_prefix_extend(base, nodeg);
                                        }
                                        let ghost rspre = rs@;
                                        push_result(&mut rs, (ctx2, cs, id), Ghost(base));
                                        proof {
                                            assert(rs@[rspre.len() as int] == (ctx2, cs, id));
                                            assert(bindings_equiv(
                                                ctx2.variables@,
                                                context.variables@,
                                            ));
                                            assert forall|k: int|
                                                0 <= k < rs@.len() implies branch_frame(
                                                #[trigger] rs@[k],
                                                context.variables@,
                                                context.graph@.push(nodeg),
                                                context.graph@.len() as int,
                                            ) by {
                                                if k < rspre.len() {
                                                    assert(rs@[k] == rspre[k]);
                                                }
                                            }
                                        }
                                    },
                                    Option::None => {
                                        return Err(
                                            SynthesisError::ConstraintFailed(ident.clone()),
                                        );
                                    },
                                }
                                fk = fk + 1;
                            }
                            if rs.len() == 0 {
                                return Err(SynthesisError::ConstraintFailed(ident.clone()));
                            }
                            Ok(rs)
                        } else {
                            Err(SynthesisError::VariableNotFound(ident.clone()))
                        }
                    },
                }
            },
            Expr::Call { name, args } => {
                let ghost zero = args@.len() == 0;
                let states = match self.eval_args(args, context, depth, stack) {
                    Ok(sts) => sts,
                    Err(e) => {
                        return Err(e);
                    },
                };
                proof {
                    if zero {
                        assert(states@[0].1.deep_view() =~= Seq::<ArgResultV>::empty());
                    }
                }
                let r = self.dispatch_call(name.as_str(), states, depth, stack, Ghost(base));
                proof {
                    assert(self.eval_case_exact(*expr, context, r));
                }
                r
            },
            Expr::BinaryOp { left, op, right } => {
                // Arithmetic operators are sugar for behavior calls.
                let bname: &str = match op {
                    Op::Div => "divide",
                    Op::Mul => "multiply",
                    Op::Add => "add",
                    Op::Sub => "subtract",
                    _ => "unknown_op",
                };
                let ghost gb = arith_op(*op) && bound_ident(**left, context.variables@)
                    && bound_ident(**right, context.variables@);
                assert(gb ==> bname@ == binop_behavior(*op));
                let ghost brow = binop_row(**left, **right, context.variables@);
                let lrs = match self.eval_at(&**left, context, depth, stack) {
                    Ok(rs) => rs,
                    Err(e) => {
                        return Err(e);
                    },
                };
                proof {
                    if gb {
                        let n0 = ident_name(**left);
                        let iw = choose|iw: int|
                            0 <= iw < context.variables@.len() && (
                            #[trigger] context.variables@[iw]).name@ == n0;
                        assert(context.variables@[iw].name@ == n0);
                        assert(lrs@.len() == 1 && lrs@[0].0 == context && lrs@[0].1.deep_view()
                            == brow[0].chains && lrs@[0].2 == brow[0].node_id);
                    }
                }
                let mut lrs = lrs;
                let mut states: Vec<(Context, Vec<ArgResult>)> = Vec::new();
                while lrs.len() > 0
                    invariant
                        results_wf(lrs@, base),
                        states_wf(states@, base),
                        gb ==> lrs@.len() + states@.len() <= 1,
                        gb && lrs@.len() == 1 ==> lrs@[0].0 == context && lrs@[0].1.deep_view()
                            == brow[0].chains && lrs@[0].2 == brow[0].node_id && states@.len()
                            == 0,
                        gb && lrs@.len() == 0 ==> states@.len() == 1 && states@[0].0 == context
                            && states@[0].1.deep_view() == brow,
                    decreases lrs@.len(),
                {
                    let ghost lpre = lrs@;
                    let (lctx, lcs, lid) = lrs.remove(0);
                    assert((lctx, lcs, lid) == lpre[0]);
                    let ghost mid = lctx.graph@;
                    let rrs = match self.eval_at(&**right, lctx, depth, stack) {
                        Ok(rs) => rs,
                        Err(e) => {
                            return Err(e);
                        },
                    };
                    proof {
                        if gb {
                            let n1 = ident_name(**right);
                            let iw = choose|iw: int|
                                0 <= iw < lctx.variables@.len() && (
                                #[trigger] lctx.variables@[iw]).name@ == n1;
                            assert(lctx.variables@[iw].name@ == n1);
                            assert(rrs@.len() == 1 && rrs@[0].0 == lctx && rrs@[0].1.deep_view()
                                == brow[1].chains && rrs@[0].2 == brow[1].node_id);
                        }
                    }
                    let mut rrs = rrs;
                    while rrs.len() > 0
                        invariant
                            results_wf(rrs@, mid),
                            states_wf(states@, base),
                            base.is_prefix_of(mid),
                            lid < mid.len(),
                            cset_wf(lcs.deep_view()),
                            gb ==> rrs@.len() + states@.len() <= 1,
                            gb && rrs@.len() == 1 ==> rrs@[0].0 == context
                                && rrs@[0].1.deep_view() == brow[1].chains && rrs@[0].2
                                == brow[1].node_id && states@.len() == 0 && lcs.deep_view()
                                == brow[0].chains && lid == brow[0].node_id,
                            gb && rrs@.len() == 0 ==> states@.len() == 1 && states@[0].0
                                == context && states@[0].1.deep_view() == brow,
                        decreases rrs@.len(),
                    {
                        let ghost rpre = rrs@;
                        let (rctx, rcs, rid) = rrs.remove(0);
                        assert((rctx, rcs, rid) == rpre[0]);
                        let mut row: Vec<ArgResult> = Vec::new();
                        row.push(
                            ArgResult {
                                node_id: lid,
                                constraint_set: clone_cset(&lcs),
                                name: Option::None,
                            },
                        );
                        row.push(
                            ArgResult { node_id: rid, constraint_set: rcs, name: Option::None },
                        );
                        proof {
                            lemma_prefix_trans(base, mid, rctx.graph@);
                            assert(row@[0].node_id == lid && row@[1].node_id == rid);
                            assert(mid.len() <= rctx.graph@.len());
                            assert forall|j: int|
                                0 <= j < row@.len() implies (#[trigger] row@[j]).node_id
                                < rctx.graph@.len() && cset_wf(
                                row@[j].constraint_set.deep_view(),
                            ) by {}
                        }
                        proof {
                            if gb {
                                assert(row.deep_view() =~= brow) by {
                                    assert(row.deep_view()[0] == row@[0]@);
                                    assert(row.deep_view()[1] == row@[1]@);
                                }
                            }
                        }
                        push_state(&mut states, (rctx, row), Ghost(base));
                    }
                }
                let r = self.dispatch_call(bname, states, depth, stack, Ghost(base));
                proof {
                    assert(self.eval_case_exact(*expr, context, r));
                }
                r
            },
        }
    }

    /// The shape of a single-statement flow that binds a universe: one
    /// assignment whose expression names a component-less declared type.
    pub open spec fn single_universe_body(&self, body: Seq<FlowStmt>) -> bool {
        &&& body.len() == 1
        &&& (match spec_stmt_expr(body[0]) {
            Expr::Identifier(n) => has_type(self.symbol_table.types@, n@) && (forall|i: int|
                0 <= i < self.symbol_table.types@.len() && (
                #[trigger] self.symbol_table.types@[i]).name@ == n@
                    ==> (match self.symbol_table.types@[i].components {
                    Option::Some(cs) => cs@.len() == 0,
                    Option::None => true,
                })),
            _ => false,
        })
    }

    /// What synthesizing such a flow owes: exactly one context holding
    /// one universe source node, the assignment's target bound to it
    /// under the property closure of the type's atom.
    pub open spec fn single_universe_post(&self, body: Seq<FlowStmt>, ctxs: Seq<Context>) -> bool {
        let n = spec_universe_name(body);
        &&& ctxs.len() == 1
        &&& ctxs[0].graph@.len() == 1
        &&& ctxs[0].graph@[0] == (ExecutionNodeV::Source {
            name: "Universe("@ + n + ")"@,
            type_tag: n,
        })
        &&& ctxs[0].variables@.len() == 1
        &&& ctxs[0].variables@[0].name@ == spec_assign_target(body)
        &&& ctxs[0].variables@[0].node_id == 0
        &&& closure_chain_of(
            self.symbol_table.types@,
            n,
            ctxs[0].variables@[0].constraint_set.deep_view(),
        )
    }

    /// The shape of a single-statement flow over a component universe:
    /// one assignment whose expression names a declared type carrying a
    /// non-empty component list.
    pub open spec fn component_universe_body(&self, body: Seq<FlowStmt>) -> bool {
        &&& body.len() == 1
        &&& (match spec_stmt_expr(body[0]) {
            Expr::Identifier(n) => has_type(self.symbol_table.types@, n@) && (forall|i: int|
                0 <= i < self.symbol_table.types@.len() && (
                #[trigger] self.symbol_table.types@[i]).name@ == n@
                    ==> (match self.symbol_table.types@[i].components {
                    Option::Some(cs) => cs@.len() > 0,
                    Option::None => false,
                })),
            _ => false,
        })
    }

    /// What synthesizing such a flow owes: one context per component,
    /// in declaration order, each holding one source for its component
    /// universe with the target bound to it under the component's
    /// property closure.
    pub open spec fn component_universe_post(&self, body: Seq<FlowStmt>, ctxs: Seq<Context>) -> bool {
        let comps = comp_list_of(self.symbol_table.types@, spec_universe_name(body));
        &&& ctxs.len() == comps.len()
        &&& (forall|k: int|
            0 <= k < comps.len() ==> component_ctx_is(
                self.symbol_table.types@,
                body,
                comps[k]@,
                #[trigger] ctxs[k],
            ))
    }

    /// The shape of a single-statement flow that dispatches one
    /// zero-arity call.
    pub open spec fn call_flow_body(&self, body: Seq<FlowStmt>) -> bool {
        &&& body.len() == 1
        &&& (match spec_stmt_expr(body[0]) {
            Expr::Call { name, args } => args@.len() == 0,
            _ => false,
        })
    }

    /// The name such a flow's single call dispatches on.
    pub open spec fn spec_call_name(body: Seq<FlowStmt>) -> Seq<char> {
        match spec_stmt_expr(body[0]) {
            Expr::Call { name, args } => name@,
            _ => Seq::empty(),
        }
    }

    /// Synthesizes a flow at a given remaining recursion depth and
    /// active flow stack, processing its body statement by statement
    /// over the list of live contexts.  A flow already on the stack is
    /// a self-reference and is rejected with a diagnostic.
    #[verifier::loop_isolation(false)]
    fn synthesize_at(
        &self,
        flow_name: &str,
        depth: u64,
        stack: &Vec<String>,
    ) -> (r: Result<
        Vec<Context>,
        SynthesisError,
    >)
        requires
            self.symbol_table.wf(),
        ensures
            (r matches Ok(ctxs) ==> forall|k: int|
                0 <= k < ctxs@.len() ==> ctx_wf(#[trigger] ctxs@[k])),
            !has_flow(self.symbol_table.flows@, flow_name@) ==> (r matches Err(e) && (e matches
            SynthesisError::FlowNotFound(n) && n@ == flow_name@)),
            r is Ok ==> has_flow(self.symbol_table.flows@, flow_name@),
            has_flow(self.symbol_table.flows@, flow_name@) && on_stack(stack@, flow_name@) ==> (r
            matches Err(e) && (e matches SynthesisError::RecursionLimitExceeded(n) && n@
                == flow_name@)),
            (forall|i: int|
                0 <= i < self.symbol_table.flows@.len() && (
                #[trigger] self.symbol_table.flows@[i]).name@ == flow_name@
                    && self.symbol_table.flows@[i].body@.len() == 0 && depth > 0 && !on_stack(
                    stack@,
                    flow_name@,
                ) ==> (r matches Ok(ctxs) && ctxs@.len() == 1 && ctxs@[0].variables@.len() == 0
                    && ctxs@[0].graph@.len() == 0)),
            (forall|i: int|
                0 <= i < self.symbol_table.flows@.len() && (
                #[trigger] self.symbol_table.flows@[i]).name@ == flow_name@
                    && self.single_universe_body(self.symbol_table.flows@[i].body@) && depth > 0
                    && !on_stack(stack@, flow_name@) ==> (r matches Ok(ctxs)
                    && self.single_universe_post(self.symbol_table.flows@[i].body@, ctxs@))),
            (forall|i: int|
                0 <= i < self.symbol_table.flows@.len() && (
                #[trigger] self.symbol_table.flows@[i]).name@ == flow_name@
                    && self.component_universe_body(self.symbol_table.flows@[i].body@) && depth
                    > 0 && !on_stack(stack@, flow_name@) ==> (r matches Ok(ctxs)
                    && self.component_universe_post(self.symbol_table.flows@[i].body@, ctxs@))),
            (forall|i: int, bi: int|
                0 <= i < self.symbol_table.flows@.len() && (
                #[trigger] self.symbol_table.flows@[i]).name@ == flow_name@
                    && self.call_flow_body(self.symbol_table.flows@[i].body@) && 0 <= bi
                    < self.symbol_table.behaviors@.len() && (
                #[trigger] self.symbol_table.behaviors@[bi]).name@ == Self::spec_call_name(
                    self.symbol_table.flows@[i].body@,
                ) && args_bind(self.symbol_table.behaviors@[bi].args@, Seq::empty())
                    && self.expected_of(bi, Seq::empty()) > 0 && depth > 0 && !on_stack(
                    stack@,
                    flow_name@,
                ) ==> (r matches Ok(ctxs) && ctxs@.len() == self.expected_of(bi, Seq::empty()))),
            (match r {
                Err(SynthesisError::FlowNotFound(n)) => !has_flow(
                    self.symbol_table.flows@,
                    n@,
                ),
                Err(SynthesisError::VariableNotFound(n)) => !has_type(
                    self.symbol_table.types@,
                    n@,
                ) && !has_flow(self.symbol_table.flows@, n@),
                _ => true,
            }),
        decreases depth, 3int, 0nat,
    {
        let flow = match self.symbol_table.get_flow(flow_name) {
            Option::Some(f) => f,
            Option::None => {
                return Err(SynthesisError::FlowNotFound(flow_name.to_owned()));
            },
        };
        if name_on_stack(stack, flow_name) {
            // A flow already on the active synthesis stack is a
            // self-reference: rejected with a diagnostic.
            return Err(SynthesisError::RecursionLimitExceeded(flow_name.to_owned()));
        }
        if depth == 0 {
            return Err(SynthesisError::RecursionLimitExceeded(flow_name.to_owned()));
        }
        let deeper = push_stack_name(stack, flow_name);
        let ghost flowv = *flow;
        let ghost plain_uni = self.single_universe_body(flowv.body@);
        let ghost comp_uni = self.component_universe_body(flowv.body@);
        let ghost one_call = self.call_flow_body(flowv.body@);
        let mut contexts: Vec<Context> = Vec::new();
        let fresh = Context::new();
        let ghost fresh0 = fresh;
        contexts.push(fresh);
        assert forall|k: int| 0 <= k < contexts@.len() implies ctx_wf(
            #[trigger] contexts@[k],
        ) by {}
        let ghost init_ctxs = contexts@;
        let mut st: usize = 0;
        while st < flow.body.len()
            invariant
                st <= flow.body@.len(),
                forall|k: int| 0 <= k < contexts@.len() ==> ctx_wf(#[trigger] contexts@[k]),
                flowv.body@.len() == 0 ==> contexts@ == init_ctxs,
                plain_uni && st == 0 ==> contexts@ == init_ctxs,
                plain_uni && st >= 1 ==> self.single_universe_post(flowv.body@, contexts@),
                comp_uni && st == 0 ==> contexts@ == init_ctxs,
                comp_uni && st >= 1 ==> self.component_universe_post(flowv.body@, contexts@),
                one_call && st == 0 ==> contexts@ == init_ctxs,
                one_call && st >= 1 ==> (forall|bi: int|
                    0 <= bi < self.symbol_table.behaviors@.len() && (
                    #[trigger] self.symbol_table.behaviors@[bi]).name@ == Self::spec_call_name(
                        flowv.body@,
                    ) && args_bind(self.symbol_table.behaviors@[bi].args@, Seq::empty())
                        && self.expected_of(bi, Seq::empty()) > 0 ==> contexts@.len()
                        == self.expected_of(bi, Seq::empty())),
            decreases flow.body@.len() - st,
        {
            let mut next: Vec<Context> = Vec::new();
            while contexts.len() > 0
                invariant
                    st < flow.body@.len(),
                    forall|k: int| 0 <= k < contexts@.len() ==> ctx_wf(#[trigger] contexts@[k]),
                    forall|k: int| 0 <= k < next@.len() ==> ctx_wf(#[trigger] next@[k]),
                    plain_uni && st == 0 ==> contexts@.len() + next@.len() <= 1,
                    plain_uni && st == 0 && contexts@.len() == 1 ==> contexts@[0] == fresh0
                        && next@.len() == 0,
                    plain_uni && st == 0 && contexts@.len() == 0 ==> self.single_universe_post(
                        flowv.body@,
                        next@,
                    ),
                    comp_uni && st == 0 ==> contexts@.len() <= 1,
                    comp_uni && st == 0 && contexts@.len() == 1 ==> contexts@[0] == fresh0
                        && next@.len() == 0,
                    comp_uni && st == 0 && contexts@.len() == 0 ==> self.component_universe_post(
                        flowv.body@,
                        next@,
                    ),
                    one_call && st == 0 ==> contexts@.len() <= 1,
                    one_call && st == 0 && contexts@.len() == 1 ==> contexts@[0] == fresh0
                        && next@.len() == 0,
                    one_call && st == 0 && contexts@.len() == 0 ==> (forall|bi: int|
                        0 <= bi < self.symbol_table.behaviors@.len() && (
                        #[trigger] self.symbol_table.behaviors@[bi]).name@
                            == Self::spec_call_name(flowv.body@) && args_bind(
                            self.symbol_table.behaviors@[bi].args@,
                            Seq::empty(),
                        ) && self.expected_of(bi, Seq::empty()) > 0 ==> next@.len()
                            == self.expected_of(bi, Seq::empty())),
                decreases contexts@.len(),
            {
                let ghost cpre = contexts@;
                let ctx = contexts.remove(0);
                assert(ctx == cpre[0]);
                let (target, expr): (Option<&String>, &Expr) = match &flow.body[st] {
                    FlowStmt::Assignment { target, expr } => (Option::Some(target), expr),
                    FlowStmt::Return(expr) => (Option::None, expr),
                };
                let ghost ctxbase = ctx.graph@;
                let r_eval = self.eval_at(expr, ctx, depth, &deeper);
                proof {
                    if one_call && st == 0 {
                        // A behavior that owes candidates cannot have
                        // failed: the dispatcher's law pins Ok there.
                        assert forall|bi: int|
                            0 <= bi < self.symbol_table.behaviors@.len() && (
                            #[trigger] self.symbol_table.behaviors@[bi]).name@
                                == Self::spec_call_name(flowv.body@) && args_bind(
                                self.symbol_table.behaviors@[bi].args@,
                                Seq::empty(),
                            ) && self.expected_of(bi, Seq::empty()) > 0 implies (r_eval matches
                        Ok(rs) && rs@.len() == self.expected_of(bi, Seq::empty())) by {
                            assert(self.eval_case_exact(*expr, ctx, r_eval));
                        }
                    }
                }
                let rs = match r_eval {
                    Ok(rs) => rs,
                    Err(e) => {
                        return Err(e);
                    },
                };
                proof {
                    if plain_uni && st == 0 {
                        assert(flowv.body@[0] == flow.body@[st as int]);
                        let n0 = spec_universe_name(flowv.body@);
                        assert(ctx == fresh0);
                        assert(!has_var(ctx.variables@, n0));
                        assert(has_type(self.symbol_table.types@, n0));
                        let i0 = choose|i0: int|
                            0 <= i0 < self.symbol_table.types@.len() && (
                            #[trigger] self.symbol_table.types@[i0]).name@ == n0;
                        assert(self.universe_exact(
                            self.symbol_table.types@[i0],
                            n0,
                            ctx,
                            Ok(rs),
                        ));
                        assert(self.plain_universe_exact(n0, ctx, Ok(rs)));
                        assert(rs@.len() == 1);
                        assert(universe_branch(self.symbol_table.types@, flowv.body@, rs@[0])) by {
                            assert(branch_frame(
                                rs@[0],
                                ctx.variables@,
                                ctx.graph@.push(
                                    (ExecutionNodeV::Source {
                                        name: "Universe("@ + n0 + ")"@,
                                        type_tag: n0,
                                    }),
                                ),
                                ctx.graph@.len() as int,
                            ));
                            assert(ctx.variables@.len() == 0);
                            assert(ctx.graph@.len() == 0);
                        }
                    }
                    if comp_uni && st == 0 {
                        let ts0 = self.symbol_table.types@;
                        assert(flowv.body@[0] == flow.body@[st as int]);
                        let n0 = spec_universe_name(flowv.body@);
                        assert(ctx == fresh0);
                        assert(!has_var(ctx.variables@, n0));
                        assert(has_type(ts0, n0));
                        let i0 = choose|i0: int|
                            0 <= i0 < ts0.len() && (#[trigger] ts0[i0]).name@ == n0;
                        assert(self.universe_exact(ts0[i0], n0, ctx, Ok(rs)));
                        let i1 = choose|i1: int|
                            0 <= i1 < ts0.len() && (#[trigger] ts0[i1]).name@ == n0;
                        assert(ts0[i1] == ts0[i0]);
                        let compsv = comp_list_of(ts0, n0);
                        assert(rs@.len() == compsv.len());
                        assert forall|k: int| 0 <= k < compsv.len() implies component_branch(
                            ts0,
                            compsv[k]@,
                            #[trigger] rs@[k],
                        ) by {
                            assert(branch_frame(
                                rs@[k],
                                ctx.variables@,
                                ctx.graph@.push(
                                    (ExecutionNodeV::Source {
                                        name: "Universe("@ + compsv[k]@ + ")"@,
                                        type_tag: compsv[k]@,
                                    }),
                                ),
                                ctx.graph@.len() as int,
                            ));
                            assert(ctx.variables@.len() == 0);
                            assert(ctx.graph@.len() == 0);
                        }
                    }
                }
                let ghost rs0 = rs@;
                let mut rs = rs;
                while rs.len() > 0
                    invariant
                        results_wf(rs@, ctxbase),
                        forall|k: int|
                            0 <= k < contexts@.len() ==> ctx_wf(#[trigger] contexts@[k]),
                        forall|k: int| 0 <= k < next@.len() ==> ctx_wf(#[trigger] next@[k]),
                        plain_uni && st == 0 ==> rs@.len() + next@.len() <= 1,
                        plain_uni && st == 0 && rs@.len() == 1 ==> next@.len() == 0 && universe_branch(
                            self.symbol_table.types@,
                            flowv.body@,
                            rs@[0],
                        ),
                        plain_uni && st == 0 && rs@.len() == 0 ==> self.single_universe_post(
                            flowv.body@,
                            next@,
                        ),
                        one_call && st == 0 ==> next@.len() + rs@.len() == rs0.len(),
                        one_call && st == 0 ==> (forall|bi: int|
                            0 <= bi < self.symbol_table.behaviors@.len() && (
                            #[trigger] self.symbol_table.behaviors@[bi]).name@
                                == Self::spec_call_name(flowv.body@) && args_bind(
                                self.symbol_table.behaviors@[bi].args@,
                                Seq::empty(),
                            ) && self.expected_of(bi, Seq::empty()) > 0 ==> rs0.len()
                                == self.expected_of(bi, Seq::empty())),
                        comp_uni && st == 0 ==> {
                            let comps = comp_list_of(
                                self.symbol_table.types@,
                                spec_universe_name(flowv.body@),
                            );
                            &&& rs0.len() == comps.len()
                            &&& next@.len() + rs@.len() == rs0.len()
                            &&& rs@ == rs0.skip(next@.len() as int)
                            &&& (forall|k: int|
                                0 <= k < rs0.len() ==> component_branch(
                                    self.symbol_table.types@,
                                    comps[k]@,
                                    #[trigger] rs0[k],
                                ))
                            &&& (forall|j: int|
                                0 <= j < next@.len() ==> component_ctx_is(
                                    self.symbol_table.types@,
                                    flowv.body@,
                                    comps[j]@,
                                    #[trigger] next@[j],
                                ))
                        },
                    decreases rs@.len(),
                {
                    let ghost rpre = rs@;
                    let (mut c2, cs, id) = rs.remove(0);
                    assert((c2, cs, id) == rpre[0]);
                    let bind: String = match target {
                        Option::Some(t) => t.clone(),
                        Option::None => "result".to_owned(),
                    };
                    let ghost bindg = bind;
                    let ghost csg = cs;
                    c2.set_var(bind, cs, id);
                    let ghost npre = next@;
                    next.push(c2);
                    assert forall|k: int| 0 <= k < next@.len() implies ctx_wf(
                        #[trigger] next@[k],
                    ) by {
                        if k < npre.len() {
                            assert(next@[k] == npre[k]);
                        }
                    }
                    proof {
                        if plain_uni && st == 0 {
                            let stv = (VariableState {
                                name: bindg,
                                constraint_set: csg,
                                node_id: id,
                            });
                            assert(c2.variables@.len() == 1 && c2.variables@[0] == stv);
                            assert(bindg@ == spec_assign_target(flowv.body@));
                            assert(next@[0] == c2);
                            assert(self.single_universe_post(flowv.body@, next@));
                        }
                        if comp_uni && st == 0 {
                            let comps = comp_list_of(
                                self.symbol_table.types@,
                                spec_universe_name(flowv.body@),
                            );
                            let d = npre.len() as int;
                            assert(rpre == rs0.skip(d));
                            assert(rpre[0] == rs0[d]);
                            assert(rs@ =~= rs0.skip(d + 1));
                            assert(component_branch(self.symbol_table.types@, comps[d]@, rs0[d]));
                            let stv = (VariableState {
                                name: bindg,
                                constraint_set: csg,
                                node_id: id,
                            });
                            assert(c2.variables@.len() == 1 && c2.variables@[0] == stv);
                            assert(bindg@ == spec_assign_target(flowv.body@));
                            assert(next@[d] == c2);
                            assert(component_ctx_is(
                                self.symbol_table.types@,
                                flowv.body@,
                                comps[d]@,
                                c2,
                            ));
                            assert forall|j: int|
                                0 <= j < next@.len() implies component_ctx_is(
                                self.symbol_table.types@,
                                flowv.body@,
                                comps[j]@,
                                #[trigger] next@[j],
                            ) by {
                                if j < d {
                                    assert(next@[j] == npre[j]);
                                }
                            }
                        }
                    }
                }
            }
            contexts = next;
            st = st + 1;
        }
        proof {
            if flowv.body@.len() == 0 {
                assert(contexts@ == init_ctxs);
                assert(contexts@[0] == fresh0);
            }
            let j = choose|j: int|
                0 <= j < self.symbol_table.flows@.len() && flowv
                    == #[trigger] self.symbol_table.flows@[j];
            assert forall|i: int|
                0 <= i < self.symbol_table.flows@.len() && (
                #[trigger] self.symbol_table.flows@[i]).name@ == flow_name@
                    && self.symbol_table.flows@[i].body@.len() == 0 implies contexts@.len() == 1
                && contexts@[0].variables@.len() == 0 && contexts@[0].graph@.len() == 0 by {
                assert(self.symbol_table.flows@[i] == flowv);
            }
            assert forall|i: int|
                0 <= i < self.symbol_table.flows@.len() && (
                #[trigger] self.symbol_table.flows@[i]).name@ == flow_name@
                    && self.single_universe_body(
                    self.symbol_table.flows@[i].body@,
                ) implies self.single_universe_post(
                self.symbol_table.flows@[i].body@,
                contexts@,
            ) by {
                assert(self.symbol_table.flows@[i] == flowv);
            }
            assert forall|i: int|
                0 <= i < self.symbol_table.flows@.len() && (
                #[trigger] self.symbol_table.flows@[i]).name@ == flow_name@
                    && self.component_universe_body(
                    self.symbol_table.flows@[i].body@,
                ) implies self.component_universe_post(
                self.symbol_table.flows@[i].body@,
                contexts@,
            ) by {
                assert(self.symbol_table.flows@[i] == flowv);
            }
            assert forall|i: int, bi: int|
                0 <= i < self.symbol_table.flows@.len() && (
                #[trigger] self.symbol_table.flows@[i]).name@ == flow_name@
                    && self.call_flow_body(self.symbol_table.flows@[i].body@) && 0 <= bi
                    < self.symbol_table.behaviors@.len() && (
                #[trigger] self.symbol_table.behaviors@[bi]).name@ == Self::spec_call_name(
                    self.symbol_table.flows@[i].body@,
                ) && args_bind(self.symbol_table.behaviors@[bi].args@, Seq::empty())
                    && self.expected_of(bi, Seq::empty()) > 0 implies contexts@.len()
                == self.expected_of(bi, Seq::empty()) by {
                assert(self.symbol_table.flows@[i] == flowv);
            }
        }
        Ok(contexts)
    }

    /// Enumerates every well-typed concrete pipeline of the named flow,
    /// as a forest of contexts: one per branch of every polymorphic
    /// dispatch and variant expansion its body performs.  Recursive flow
    /// references are rejected when the same flow reappears on the
    /// active synthesis stack, and bounded by the depth limit besides.
    pub fn synthesize(&self, flow_name: &str) -> (r: Result<Vec<Context>, SynthesisError>)
        requires
            self.symbol_table.wf(),
        ensures
            (r matches Ok(ctxs) ==> forall|k: int|
                0 <= k < ctxs@.len() ==> ctx_wf(#[trigger] ctxs@[k])),
            !has_flow(self.symbol_table.flows@, flow_name@) ==> (r matches Err(e) && (e matches
            SynthesisError::FlowNotFound(n) && n@ == flow_name@)),
            r is Ok ==> has_flow(self.symbol_table.flows@, flow_name@),
            (forall|i: int|
                0 <= i < self.symbol_table.flows@.len() && (
                #[trigger] self.symbol_table.flows@[i]).name@ == flow_name@
                    && self.symbol_table.flows@[i].body@.len() == 0 && self.max_depth > 0 ==> (r
                matches Ok(ctxs) && ctxs@.len() == 1 && ctxs@[0].variables@.len() == 0
                    && ctxs@[0].graph@.len() == 0)),
            (forall|i: int|
                0 <= i < self.symbol_table.flows@.len() && (
                #[trigger] self.symbol_table.flows@[i]).name@ == flow_name@
                    && self.single_universe_body(self.symbol_table.flows@[i].body@)
                    && self.max_depth > 0 ==> (r matches Ok(ctxs) && self.single_universe_post(
                    self.symbol_table.flows@[i].body@,
                    ctxs@,
                ))),
            (forall|i: int|
                0 <= i < self.symbol_table.flows@.len() && (
                #[trigger] self.symbol_table.flows@[i]).name@ == flow_name@
                    && self.component_universe_body(self.symbol_table.flows@[i].body@)
                    && self.max_depth > 0 ==> (r matches Ok(ctxs)
                    && self.component_universe_post(
                    self.symbol_table.flows@[i].body@,
                    ctxs@,
                ))),
            (forall|i: int, bi: int|
                0 <= i < self.symbol_table.flows@.len() && (
                #[trigger] self.symbol_table.flows@[i]).name@ == flow_name@
                    && self.call_flow_body(self.symbol_table.flows@[i].body@) && 0 <= bi
                    < self.symbol_table.behaviors@.len() && (
                #[trigger] self.symbol_table.behaviors@[bi]).name@ == Self::spec_call_name(
                    self.symbol_table.flows@[i].body@,
                ) && args_bind(self.symbol_table.behaviors@[bi].args@, Seq::empty())
                    && self.expected_of(bi, Seq::empty()) > 0 && self.max_depth > 0 ==> (r
                matches Ok(ctxs) && ctxs@.len() == self.expected_of(bi, Seq::empty()))),
            (match r {
                Err(SynthesisError::FlowNotFound(n)) => !has_flow(
                    self.symbol_table.flows@,
                    n@,
                ),
                Err(SynthesisError::VariableNotFound(n)) => !has_type(
                    self.symbol_table.types@,
                    n@,
                ) && !has_flow(self.symbol_table.flows@, n@),
                _ => true,
            }),
    {
        let stack: Vec<String> = Vec::new();
        self.synthesize_at(flow_name, self.max_depth, &stack)
    }

    /// Evaluates one expression under one context with the default
    /// recursion limit; public entry to the expression engine.
    pub fn evaluate_expr(&self, expr: &Expr, context: Context) -> (r: Result<
        Vec<(Context, ConstraintSet, usize)>,
        SynthesisError,
    >)
        requires
            self.symbol_table.wf(),
            ctx_wf(context),
        ensures
            (r matches Ok(rs) ==> results_wf(rs@, context.graph@)),
            self.eval_case_exact(*expr, context, r),
            (match r {
                Err(SynthesisError::FlowNotFound(n)) => !has_flow(
                    self.symbol_table.flows@,
                    n@,
                ),
                Err(SynthesisError::VariableNotFound(n)) => !has_type(
                    self.symbol_table.types@,
                    n@,
                ) && !has_flow(self.symbol_table.flows@, n@),
                _ => true,
            }),
    {
        let stack: Vec<String> = Vec::new();
        self.eval_at(expr, context, self.max_depth, &stack)
    }
}

} // verus!
