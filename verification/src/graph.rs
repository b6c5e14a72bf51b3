//! The arena model of an equality-saturation graph: equivalence classes
//! addressed by index, each holding its candidate nodes.

use vstd::prelude::*;

verus! {

/// The operation a candidate node performs. Scalar operations are never
/// selectable; everything outside the fixed vocabulary counts as a literal.
#[derive(Clone, Copy, PartialEq, Eq, Structural, Debug)]
pub enum OpKind {
    ScalarAdd,
    ScalarMul,
    ScalarSub,
    ScalarNeg,
    VecShift,
    VecStructure,
    VecAdd,
    VecMinus,
    VecNeg,
    VecMul,
    Literal,
}

/// One candidate computation. In a graph, `children` are equivalence-class
/// indices; in an extracted expression, they are positions of earlier nodes.
#[derive(Clone, Debug)]
pub struct Node {
    pub op: OpKind,
    pub children: Vec<usize>,
}

/// An equivalence class: the interchangeable candidate computations of one value.
#[derive(Clone, Debug)]
pub struct EClass {
    pub nodes: Vec<Node>,
}

/// A read-only equality-saturation graph: class `c` is `classes[c]`.
#[derive(Clone, Debug)]
pub struct EGraph {
    pub classes: Vec<EClass>,
}

/// Every child reference of `n` names a class below `bound`.
pub open spec fn node_in_bound(n: Node, bound: int) -> bool {
    forall|k: int| 0 <= k < n.children@.len() ==> (n.children@[k] as int) < bound
}

impl EGraph {
    /// Every candidate of every class only references classes of the graph.
    pub open spec fn wf(&self) -> bool {
        forall|c: int, j: int|
            0 <= c < self.classes@.len() && 0 <= j < self.classes@[c].nodes@.len()
                ==> #[trigger] node_in_bound(
                    self.classes@[c].nodes@[j],
                    self.classes@.len() as int,
                )
    }
}

/// Read-only access to a graph handed over for extraction.
pub struct Extractor {
    pub egraph: EGraph,
}

impl Extractor {
    pub fn new(egraph: EGraph) -> (r: Extractor)
        ensures
            r.egraph == egraph,
    {
        Extractor { egraph }
    }

    pub fn get_egraph(&self) -> (r: &EGraph)
        ensures
            r == &self.egraph,
    {
        &self.egraph
    }
}

} // verus!
