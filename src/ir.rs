use std::collections::HashMap;
use vstd::prelude::*;

verus! {

/// Declares `serde_json::Value`, the structured value carried by data
/// transforms and by structured results. The engine never looks inside it.
#[verifier::external_type_specification]
#[verifier::external_body]
pub struct ExJsonValue(serde_json::Value);

/// Declares `serde_json::Number`, the number carried by numeric results.
#[verifier::external_type_specification]
#[verifier::external_body]
pub struct ExJsonNumber(serde_json::Number);

/// Relies on serde_json's derived `Clone` for `Value`: a field-by-field copy.
pub assume_specification[ <serde_json::Value as Clone>::clone ](v: &serde_json::Value) -> (r: serde_json::Value)
    ensures
        r == *v,
;

/// Relies on serde_json's derived `Clone` for `Number`: a field-by-field copy.
pub assume_specification[ <serde_json::Number as Clone>::clone ](n: &serde_json::Number) -> (r: serde_json::Number)
    ensures
        r == *n,
;

/// A node of the graph: an operation, and the ids of the nodes that must be
/// resolved, in this order, before it runs.
#[derive(Debug, Clone)]
pub struct IRNode {
    pub id: String,
    pub operation: Operation,
    pub dependencies: Vec<String>,
    pub metadata: HashMap<String, String>,
}

/// The closed set of operations a node can carry.
#[derive(Debug, Clone)]
pub enum Operation {
    SQLQuery(SQLQueryOp),
    DataTransform(DataTransformOp),
    FileIO(FileIOOp),
    PythonCode(PythonCodeOp),
    RustCode(RustCodeOp),
    Print(PrintOp),
    Return(ReturnOp),
}

#[derive(Debug, Clone)]
pub struct SQLQueryOp {
    pub query: String,
    pub params: Option<Vec<String>>,
}

#[derive(Debug, Clone)]
pub struct DataTransformOp {
    /// The kind of transform, such as "filter", "map" or "groupby".
    pub transform_type: String,
    pub args: serde_json::Value,
}

#[derive(Debug, Clone)]
pub struct FileIOOp {
    /// "read" or "write"; any other value is refused when the node runs.
    pub operation_type: String,
    pub path: String,
    /// "csv", "json" and the like.
    pub format: Option<String>,
}

/// Code handed to the execution sandbox.
#[derive(Debug, Clone)]
pub struct PythonCodeOp {
    pub code: String,
    pub use_sandbox: bool,
}

/// Native code: reserved, and answered with a fixed placeholder.
#[derive(Debug, Clone)]
pub struct RustCodeOp {
    pub code: String,
}

/// Emits the cached result of node `value_ref` and passes it through.
#[derive(Debug, Clone)]
pub struct PrintOp {
    pub value_ref: String,
}

/// Passes the cached result of node `value_ref` through.
#[derive(Debug, Clone)]
pub struct ReturnOp {
    pub value_ref: String,
}

/// A graph of nodes with the id of the node where execution starts.
#[derive(Debug, Clone)]
pub struct IRGraph {
    pub nodes: Vec<IRNode>,
    pub entry_point: String,
}

impl IRGraph {
    /// Whether some node of the graph has id `id`.
    pub open spec fn has_node(&self, id: Seq<char>) -> bool {
        exists|i: int| 0 <= i < self.nodes@.len() && #[trigger] self.nodes@[i].id@ == id
    }

    /// The position of the first node whose id is `id`, if there is one.
    pub fn find_node(&self, id: &String) -> (r: Option<usize>)
        ensures
            match r {
                Some(i) => {
                    &&& i < self.nodes@.len()
                    &&& self.nodes@[i as int].id@ == id@
                    &&& forall|j: int| 0 <= j < i ==> #[trigger] self.nodes@[j].id@ != id@
                },
                None => !self.has_node(id@),
            },
    {
        let mut i: usize = 0;
        while i < self.nodes.len()
            invariant
                i <= self.nodes@.len(),
                forall|j: int| 0 <= j < i ==> #[trigger] self.nodes@[j].id@ != id@,
            decreases self.nodes@.len() - i,
        {
            if self.nodes[i].id == *id {
                return Some(i);
            }
            i += 1;
        }
        None
    }

    pub fn new() -> (g: IRGraph)
        ensures
            g.nodes@.len() == 0,
            g.entry_point@.len() == 0,
    {
        IRGraph { nodes: Vec::new(), entry_point: String::new() }
    }

    /// Appends `node`; the first node added to an empty graph becomes the
    /// entry point.
    pub fn add_node(&mut self, node: IRNode)
        ensures
            final(self).nodes@ == old(self).nodes@.push(node),
            final(self).entry_point@ == (if old(self).nodes@.len() == 0 {
                node.id@
            } else {
                old(self).entry_point@
            }),
    {
        if self.nodes.len() == 0 {
            self.entry_point = node.id.clone();
        }
        self.nodes.push(node);
    }
}

} // verus!
