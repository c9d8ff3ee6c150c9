//! Execution graphs: append-only directed acyclic graphs of sources,
//! constants and operations, built one node at a time.

use vstd::prelude::*;

verus! {

/// An operation an execution node may perform.
#[derive(Debug, PartialEq, Eq)]
pub enum OperatorOp {
    Divide,
    Multiply,
    Add,
    Subtract,
    Delay,
    Diff,
    RollingMean,
    RollingStd,
    ZScore,
    Filter,
    UpdateWhen,
    FunctionCall(String),
}

/// The mathematical shape of an [`OperatorOp`].
pub enum OperatorOpV {
    Divide,
    Multiply,
    Add,
    Subtract,
    Delay,
    Diff,
    RollingMean,
    RollingStd,
    ZScore,
    Filter,
    UpdateWhen,
    FunctionCall(Seq<char>),
}

impl View for OperatorOp {
    type V = OperatorOpV;

    open spec fn view(&self) -> OperatorOpV {
        match self {
            OperatorOp::Divide => OperatorOpV::Divide,
            OperatorOp::Multiply => OperatorOpV::Multiply,
            OperatorOp::Add => OperatorOpV::Add,
            OperatorOp::Subtract => OperatorOpV::Subtract,
            OperatorOp::Delay => OperatorOpV::Delay,
            OperatorOp::Diff => OperatorOpV::Diff,
            OperatorOp::RollingMean => OperatorOpV::RollingMean,
            OperatorOp::RollingStd => OperatorOpV::RollingStd,
            OperatorOp::ZScore => OperatorOpV::ZScore,
            OperatorOp::Filter => OperatorOpV::Filter,
            OperatorOp::UpdateWhen => OperatorOpV::UpdateWhen,
            OperatorOp::FunctionCall(name) => OperatorOpV::FunctionCall(name@),
        }
    }
}

impl Clone for OperatorOp {
    fn clone(&self) -> (r: OperatorOp)
        ensures
            r@ == self@,
    {
        match self {
            OperatorOp::Divide => OperatorOp::Divide,
            OperatorOp::Multiply => OperatorOp::Multiply,
            OperatorOp::Add => OperatorOp::Add,
            OperatorOp::Subtract => OperatorOp::Subtract,
            OperatorOp::Delay => OperatorOp::Delay,
            OperatorOp::Diff => OperatorOp::Diff,
            OperatorOp::RollingMean => OperatorOp::RollingMean,
            OperatorOp::RollingStd => OperatorOp::RollingStd,
            OperatorOp::ZScore => OperatorOp::ZScore,
            OperatorOp::Filter => OperatorOp::Filter,
            OperatorOp::UpdateWhen => OperatorOp::UpdateWhen,
            OperatorOp::FunctionCall(name) => OperatorOp::FunctionCall(name.clone()),
        }
    }
}

/// One node of an execution graph.  Operation inputs are the indices of
/// earlier nodes.
#[derive(Debug, PartialEq, Eq)]
pub enum ExecutionNode {
    Source { name: String, type_tag: String },
    Constant { value: String, type_tag: String },
    Operation { op: OperatorOp, args: Vec<usize> },
}

/// The mathematical shape of an [`ExecutionNode`].
pub enum ExecutionNodeV {
    Source { name: Seq<char>, type_tag: Seq<char> },
    Constant { value: Seq<char>, type_tag: Seq<char> },
    Operation { op: OperatorOpV, args: Seq<usize> },
}

impl View for ExecutionNode {
    type V = ExecutionNodeV;

    open spec fn view(&self) -> ExecutionNodeV {
        match self {
            ExecutionNode::Source { name, type_tag } => ExecutionNodeV::Source {
                name: name@,
                type_tag: type_tag@,
            },
            ExecutionNode::Constant { value, type_tag } => ExecutionNodeV::Constant {
                value: value@,
                type_tag: type_tag@,
            },
            ExecutionNode::Operation { op, args } => ExecutionNodeV::Operation {
                op: op@,
                args: args@,
            },
        }
    }
}

impl DeepView for ExecutionNode {
    type V = ExecutionNodeV;

    open spec fn deep_view(&self) -> ExecutionNodeV {
        self@
    }
}

impl Clone for ExecutionNode {
    fn clone(&self) -> (r: ExecutionNode)
        ensures
            r@ == self@,
    {
        match self {
            ExecutionNode::Source { name, type_tag } => ExecutionNode::Source {
                name: name.clone(),
                type_tag: type_tag.clone(),
            },
            ExecutionNode::Constant { value, type_tag } => ExecutionNode::Constant {
                value: value.clone(),
                type_tag: type_tag.clone(),
            },
            ExecutionNode::Operation { op, args } => {
                let mut copied: Vec<usize> = Vec::new();
                let mut i: usize = 0;
                while i < args.len()
                    invariant
                        i <= args.len(),
                        copied@ == args@.take(i as int),
                    decreases args.len() - i,
                {
                    copied.push(args[i]);
                    assert(copied@ =~= args@.take(i as int + 1));
                    i = i + 1;
                }
                assert(copied@ =~= args@);
                ExecutionNode::Operation { op: op.clone(), args: copied }
            },
        }
    }
}

/// A node may only reference nodes with strictly smaller indices; this
/// keeps every graph acyclic by construction.
pub open spec fn node_wf(n: ExecutionNodeV, bound: int) -> bool {
    match n {
        ExecutionNodeV::Operation { op, args } => forall|k: int|
            0 <= k < args.len() ==> (#[trigger] args[k]) < bound,
        _ => true,
    }
}

/// Every node of the graph references only earlier nodes.
pub open spec fn graph_wf(g: Seq<ExecutionNodeV>) -> bool {
    forall|i: int| 0 <= i < g.len() ==> node_wf(#[trigger] g[i], i)
}

/// An append-only execution graph.  Node ids are dense indices assigned
/// monotonically, so the node order is a topological order.
#[derive(Debug)]
pub struct ExecutionGraph {
    pub nodes: Vec<ExecutionNode>,
}

impl View for ExecutionGraph {
    type V = Seq<ExecutionNodeV>;

    open spec fn view(&self) -> Seq<ExecutionNodeV> {
        self.nodes.deep_view()
    }
}

impl ExecutionGraph {
    /// The empty graph.
    pub fn new() -> (g: ExecutionGraph)
        ensures
            g@ == Seq::<ExecutionNodeV>::empty(),
    {
        let g = ExecutionGraph { nodes: Vec::new() };
        proof {
            assert(g@ =~= Seq::<ExecutionNodeV>::empty());
        }
        g
    }

    /// Appends a node and returns its id: the next dense index.
    pub fn add_node(&mut self, node: ExecutionNode) -> (id: usize)
        requires
            node_wf(node@, old(self)@.len() as int),
        ensures
            final(self)@ == old(self)@.push(node@),
            id == old(self)@.len(),
            graph_wf(old(self)@) ==> graph_wf(final(self)@),
    {
        let ghost pre = self@;
        let id = self.nodes.len();
        self.nodes.push(node);
        proof {
            assert(self@ =~= pre.push(node@));
            if graph_wf(pre) {
                assert forall|i: int| 0 <= i < self@.len() implies node_wf(
                    #[trigger] self@[i],
                    i,
                ) by {
                    if i < pre.len() {
                        assert(self@[i] == pre[i]);
                    }
                }
            }
        }
        id
    }

    /// An exact copy of the graph, so one synthesis branch can diverge
    /// from another without sharing.
    pub fn duplicate(&self) -> (r: ExecutionGraph)
        ensures
            r@ == self@,
    {
        let mut nodes: Vec<ExecutionNode> = Vec::new();
        let mut i: usize = 0;
        while i < self.nodes.len()
            invariant
                i <= self.nodes.len(),
                nodes@.len() == i,
                nodes.deep_view() == self.nodes.deep_view().take(i as int),
            decreases self.nodes.len() - i,
        {
            let copied = self.nodes[i].clone();
            assert(copied@ == self.nodes.deep_view()[i as int]);
            let ghost prev = nodes@;
            nodes.push(copied);
            assert(nodes@ == prev.push(copied));
            assert(nodes@[i as int] == copied);
            assert(nodes.deep_view() =~= self.nodes.deep_view().take(i as int + 1)) by {
                assert(nodes.deep_view()[i as int] == nodes@[i as int]@);
            }
            i = i + 1;
        }
        let r = ExecutionGraph { nodes };
        proof {
            assert(r@ =~= self@);
        }
        r
    }
}

} // verus!
