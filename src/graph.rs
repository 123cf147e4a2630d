//! The control-flow graph: an arena of vertices and a list of guarded edges
//! between them, named by their positions.
use vstd::prelude::*;
use crate::basic_block::BasicBlock;
use crate::guard::Guard;
use crate::value::Rvalue;

verus! {

/// What a vertex of the graph stands for.
#[derive(Debug, PartialEq, Eq)]
pub enum ControlFlowTarget {
    /// A decoded basic block.
    Resolved(BasicBlock),
    /// A jump target that is no block: a known address (a constant) or a
    /// computed one.
    Unresolved(Rvalue),
}

/// A vertex of a graph: its position in the vertex list.
pub type ControlFlowRef = usize;

/// A guarded transfer from one vertex to another.
#[derive(Debug, PartialEq, Eq)]
pub struct CflowEdge {
    pub source: ControlFlowRef,
    pub target: ControlFlowRef,
    pub guard: Guard,
}

/// A directed graph over control-flow targets with guarded edges.
#[derive(Debug, PartialEq, Eq)]
pub struct ControlFlowGraph {
    pub vertices: Vec<ControlFlowTarget>,
    pub edges: Vec<CflowEdge>,
}

/// Whether some edge of `es` goes from `from` to `to`.
pub open spec fn edge_between(es: Seq<CflowEdge>, from: int, to: int) -> bool {
    exists|i: int| 0 <= i < es.len() && es[i].source == from && es[i].target == to
}

impl ControlFlowGraph {
    /// Every edge joins two vertices of the graph.
    pub open spec fn wf(&self) -> bool {
        forall|i: int|
            0 <= i < self.edges@.len() ==> (#[trigger] self.edges@[i]).source
                < self.vertices@.len() && self.edges@[i].target < self.vertices@.len()
    }

    /// The graph without vertices or edges.
    pub fn new() -> (r: ControlFlowGraph)
        ensures
            r.vertices@.len() == 0,
            r.edges@.len() == 0,
            r.wf(),
    {
        ControlFlowGraph { vertices: Vec::new(), edges: Vec::new() }
    }

    /// Adds a vertex and returns it.
    pub fn add_vertex(&mut self, label: ControlFlowTarget) -> (r: ControlFlowRef)
        ensures
            r == old(self).vertices@.len(),
            final(self).vertices@ == old(self).vertices@.push(label),
            final(self).edges@ == old(self).edges@,
            old(self).wf() ==> final(self).wf(),
    {
        let r = self.vertices.len();
        self.vertices.push(label);
        r
    }

    /// Adds an edge between two vertices of the graph and returns its
    /// position; `None`, and no change, where either is not a vertex.
    pub fn add_edge(&mut self, guard: Guard, from: ControlFlowRef, to: ControlFlowRef) -> (r:
        Option<usize>)
        ensures
            final(self).vertices@ == old(self).vertices@,
            from < old(self).vertices@.len() && to < old(self).vertices@.len() ==> r == Some(
                old(self).edges@.len() as usize,
            ) && final(self).edges@ == old(self).edges@.push(
                CflowEdge { source: from, target: to, guard },
            ),
            !(from < old(self).vertices@.len() && to < old(self).vertices@.len()) ==> r is None
                && final(self).edges@ == old(self).edges@,
            old(self).wf() ==> final(self).wf(),
    {
        if from < self.vertices.len() && to < self.vertices.len() {
            let r = self.edges.len();
            self.edges.push(CflowEdge { source: from, target: to, guard });
            Some(r)
        } else {
            None
        }
    }

    pub fn num_vertices(&self) -> (r: usize)
        ensures
            r == self.vertices@.len(),
    {
        self.vertices.len()
    }

    pub fn num_edges(&self) -> (r: usize)
        ensures
            r == self.edges@.len(),
    {
        self.edges.len()
    }

    /// What vertex `v` stands for, if it is a vertex.
    pub fn vertex_label(&self, v: ControlFlowRef) -> (r: Option<&ControlFlowTarget>)
        ensures
            v < self.vertices@.len() ==> r == Some(&self.vertices@[v as int]),
            v >= self.vertices@.len() ==> r is None,
    {
        if v < self.vertices.len() {
            Some(&self.vertices[v])
        } else {
            None
        }
    }

    /// The first edge from `from` to `to`, if there is one.
    pub fn edge(&self, from: ControlFlowRef, to: ControlFlowRef) -> (r: Option<usize>)
        ensures
            r is None <==> !edge_between(self.edges@, from as int, to as int),
            r matches Some(i) ==> i < self.edges@.len() && self.edges@[i as int].source == from
                && self.edges@[i as int].target == to,
    {
        let mut i: usize = 0;
        while i < self.edges.len()
            invariant
                i <= self.edges@.len(),
                forall|j: int|
                    0 <= j < i ==> !(self.edges@[j].source == from && self.edges@[j].target
                        == to),
            decreases self.edges@.len() - i,
        {
            if self.edges[i].source == from && self.edges[i].target == to {
                return Some(i);
            }
            i = i + 1;
        }
        None
    }
}

} // verus!
