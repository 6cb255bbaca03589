use crate::ir::{IRGraph, IRNode, Operation};
use crate::result_cache::{results_clear, results_get, results_insert, results_new, results_of};
use dashmap::DashMap;
use vstd::prelude::*;

verus! {

/// The result of running a node.
#[derive(Debug, PartialEq)]
pub enum ExecutionResult {
    String(String),
    Number(serde_json::Number),
    Boolean(bool),
    Object(serde_json::Value),
    Null,
}

impl Clone for ExecutionResult {
    fn clone(&self) -> (r: Self)
        ensures
            r == *self,
    {
        match self {
            ExecutionResult::String(s) => ExecutionResult::String(s.clone()),
            ExecutionResult::Number(n) => ExecutionResult::Number(n.clone()),
            ExecutionResult::Boolean(b) => ExecutionResult::Boolean(*b),
            ExecutionResult::Object(v) => ExecutionResult::Object(v.clone()),
            ExecutionResult::Null => ExecutionResult::Null,
        }
    }
}

/// Relies on the `Display` of `serde_json::Number`: its decimal form.
#[verifier::external_body]
fn number_text(n: &serde_json::Number) -> (r: String) {
    n.to_string()
}

/// Relies on the `Display` of `serde_json::Value`: its compact JSON form.
#[verifier::external_body]
fn json_text(v: &serde_json::Value) -> (r: String) {
    v.to_string()
}

impl ExecutionResult {
    /// The canonical text of a result, for the parts that the library itself
    /// renders.
    pub open spec fn plain_text(&self) -> Option<Seq<char>> {
        match self {
            ExecutionResult::String(s) => Some(s@),
            ExecutionResult::Boolean(b) => Some(if *b { "true"@ } else { "false"@ }),
            ExecutionResult::Null => Some("null"@),
            _ => None,
        }
    }

    /// The canonical text: strings as they are, numbers in decimal form,
    /// booleans as `true` or `false`, structured values as compact JSON and
    /// `Null` as `null`.
    pub fn to_string(&self) -> (r: String)
        ensures
            self.plain_text() is Some ==> r@ == self.plain_text()->Some_0,
    {
        match self {
            ExecutionResult::String(s) => s.clone(),
            ExecutionResult::Number(n) => number_text(n),
            ExecutionResult::Boolean(b) => if *b {
                "true".to_owned()
            } else {
                "false".to_owned()
            },
            ExecutionResult::Object(o) => json_text(o),
            ExecutionResult::Null => "null".to_owned(),
        }
    }
}

/// What a data transform hands back: text, or a structured value.
#[derive(Debug, Clone)]
pub enum TransformOutput {
    Text(String),
    Structured(serde_json::Value),
}

/// The ways a run can fail. Each names the node at which it failed.
#[derive(Debug, Clone, PartialEq)]
pub enum ExecError {
    /// The entry point, or a dependency, names no node of the graph.
    GraphStructure { missing_id: String },
    /// A node was reached again while its own dependencies were being resolved.
    GraphCycle { node_id: String },
    /// A `Print` or `Return` names a node without a cached result.
    Reference { node_id: String, value_ref: String },
    /// A sub-kind of an operation is not one of the recognized values.
    UnsupportedOperation { node_id: String, operation_type: String },
    /// A collaborator failed; `message` is its diagnostic.
    EffectHandler { node_id: String, message: String },
}

/// The collaborators that do the actual work of the operations. The engine
/// calls them; it makes no assumption on what they return.
pub trait EffectHandler {
    /// Runs a query and renders its row set as text.
    fn run_query(&mut self, query: &str, params: &Option<Vec<String>>) -> Result<String, String>;

    /// Applies a data transform.
    fn transform(&mut self, transform_type: &str, args: &serde_json::Value) -> Result<
        TransformOutput,
        String,
    >;

    /// Reads a file and returns its contents.
    fn read_file(&mut self, path: &str, format: &Option<String>) -> Result<String, String>;

    /// Writes a file and returns a confirmation.
    fn write_file(&mut self, path: &str, format: &Option<String>) -> Result<String, String>;

    /// Runs code in the execution sandbox and returns its captured output.
    fn run_code(&mut self, code: &str, use_sandbox: bool) -> Result<String, String>;

    /// Writes one line of text to the output channel.
    fn emit(&mut self, text: &str);
}

/// The text that a `RustCode` node yields; native code is not run yet.
pub const NATIVE_PLACEHOLDER: &'static str = "Rust code execution placeholder";

/// One call that the executor made to its effect handler: the arguments it
/// handed over, taken from a node's operation, and the answer it got back.
/// `Emit` hands over the text of `value`.
pub enum Call {
    Query { query: Seq<char>, params: Option<Vec<String>>, answer: Result<String, String> },
    Transform {
        transform_type: Seq<char>,
        args: serde_json::Value,
        answer: Result<TransformOutput, String>,
    },
    ReadFile { path: Seq<char>, format: Option<String>, answer: Result<String, String> },
    WriteFile { path: Seq<char>, format: Option<String>, answer: Result<String, String> },
    RunCode { code: Seq<char>, use_sandbox: bool, answer: Result<String, String> },
    Emit { value: ExecutionResult },
}

/// A logged call: the id of the node it was made for, and the call.
pub type Logged = (Seq<char>, Call);

/// Whether `id` is among the first `p` entries of `done`.
pub open spec fn done_before(done: Seq<Seq<char>>, p: int, id: Seq<char>) -> bool {
    exists|q: int| 0 <= q < p && #[trigger] done[q] == id
}

/// Whether each dependency of `n` is among the first `p` entries of `done`.
pub open spec fn deps_done_before(done: Seq<Seq<char>>, p: int, n: IRNode) -> bool {
    forall|d: int|
        0 <= d < n.dependencies@.len() ==> #[trigger] done_before(
            done,
            p,
            n.dependencies@[d]@,
        )
}

/// `b` starts with `a`.
pub open spec fn extends(a: Seq<Seq<char>>, b: Seq<Seq<char>>) -> bool {
    a.len() <= b.len() && forall|p: int| 0 <= p < a.len() ==> #[trigger] b[p] == a[p]
}

/// Node `i` is the first node of `graph` with id `id`.
pub open spec fn first_with_id(graph: IRGraph, i: int, id: Seq<char>) -> bool {
    &&& 0 <= i < graph.nodes@.len()
    &&& graph.nodes@[i].id@ == id
    &&& forall|j: int| 0 <= j < i ==> #[trigger] graph.nodes@[j].id@ != id
}

/// The node that runs for `id` in a run started at `root`: `root` itself, or
/// else the first node of `graph` with that id.
pub open spec fn node_of(graph: IRGraph, root: IRNode, id: Seq<char>) -> IRNode {
    if id == root.id@ {
        root
    } else {
        graph.nodes@[choose|i: int| first_with_id(graph, i, id)]
    }
}

/// `id` is `root`'s or that of a node of `graph`.
pub open spec fn known(graph: IRGraph, root: IRNode, id: Seq<char>) -> bool {
    id == root.id@ || graph.has_node(id)
}

/// `n` lists `id` among its dependencies.
pub open spec fn lists(n: IRNode, id: Seq<char>) -> bool {
    exists|d: int| 0 <= d < n.dependencies@.len() && #[trigger] n.dependencies@[d]@ == id
}

/// `chain` leads from an id back to itself, each id listing the next.
pub open spec fn is_cycle(graph: IRGraph, root: IRNode, chain: Seq<Seq<char>>) -> bool {
    &&& chain.len() >= 2
    &&& chain[0] == chain.last()
    &&& forall|k: int|
        0 <= k < chain.len() - 1 ==> lists(node_of(graph, root, #[trigger] chain[k]), chain[k + 1])
}

/// Every dependency of `n` has a result in `cache`.
pub open spec fn deps_cached(n: IRNode, cache: Map<Seq<char>, ExecutionResult>) -> bool {
    forall|d: int| 0 <= d < n.dependencies@.len() ==> cache.contains_key(#[trigger] n.dependencies@[d]@)
}

/// `v` is a result that `n`'s operation can give with `cache`: text from a
/// collaborator (or a structured value from a transform), the placeholder
/// for native code, and for `Print` and `Return` the cached result of the
/// node they refer to.
pub open spec fn ok_value(n: IRNode, cache: Map<Seq<char>, ExecutionResult>, v: ExecutionResult) -> bool {
    match n.operation {
        Operation::SQLQuery(_) | Operation::PythonCode(_) => v is String,
        Operation::DataTransform(_) => v is String || v is Object,
        Operation::FileIO(op) => (op.operation_type@ == "read"@ || op.operation_type@ == "write"@)
            && v is String,
        Operation::RustCode(_) => v is String && v->String_0@ == NATIVE_PLACEHOLDER@,
        Operation::Print(op) => cache.contains_key(op.value_ref@) && v == cache[op.value_ref@],
        Operation::Return(op) => cache.contains_key(op.value_ref@) && v == cache[op.value_ref@],
    }
}

/// The calls that `n`'s operation makes when it yields `v`: one call to the
/// collaborator of its kind, with the node's own fields, answered with the
/// text or value that `v` holds; for `Print`, one emit of `v`; none else.
pub open spec fn expected_calls(n: IRNode, v: ExecutionResult) -> Seq<Logged> {
    let id = n.id@;
    match n.operation {
        Operation::SQLQuery(op) => seq![
            (id, Call::Query { query: op.query@, params: op.params, answer: Ok(v->String_0) }),
        ],
        Operation::DataTransform(op) => seq![
            (
                id,
                Call::Transform {
                    transform_type: op.transform_type@,
                    args: op.args,
                    answer: Ok(
                        if v is Object {
                            TransformOutput::Structured(v->Object_0)
                        } else {
                            TransformOutput::Text(v->String_0)
                        },
                    ),
                },
            ),
        ],
        Operation::FileIO(op) => if op.operation_type@ == "read"@ {
            seq![(id, Call::ReadFile { path: op.path@, format: op.format, answer: Ok(v->String_0) })]
        } else {
            seq![(id, Call::WriteFile { path: op.path@, format: op.format, answer: Ok(v->String_0) })]
        },
        Operation::PythonCode(op) => seq![
            (
                id,
                Call::RunCode { code: op.code@, use_sandbox: op.use_sandbox, answer: Ok(v->String_0) },
            ),
        ],
        Operation::Print(_) => seq![(id, Call::Emit { value: v })],
        Operation::RustCode(_) | Operation::Return(_) => Seq::empty(),
    }
}

/// `n`'s operation failed with `e` after making `calls`: a collaborator
/// answered with an error, which `e` carries; a file operation other than
/// "read" or "write" was refused without a call; or a `Print` or `Return`
/// found no cached result to pass through.
pub open spec fn dispatch_err(
    n: IRNode,
    cache: Map<Seq<char>, ExecutionResult>,
    e: ExecError,
    calls: Seq<Logged>,
) -> bool {
    let id = n.id@;
    let failed = |m: String| e == ExecError::EffectHandler { node_id: n.id, message: m };
    match n.operation {
        Operation::SQLQuery(op) => calls.len() == 1 && calls[0].0 == id && match calls[0].1 {
            Call::Query { query, params, answer: Err(m) } => query == op.query@ && params
                == op.params && failed(m),
            _ => false,
        },
        Operation::DataTransform(op) => calls.len() == 1 && calls[0].0 == id && match calls[0].1 {
            Call::Transform { transform_type, args, answer: Err(m) } => transform_type
                == op.transform_type@ && args == op.args && failed(m),
            _ => false,
        },
        Operation::FileIO(op) => if op.operation_type@ == "read"@ {
            calls.len() == 1 && calls[0].0 == id && match calls[0].1 {
                Call::ReadFile { path, format, answer: Err(m) } => path == op.path@ && format
                    == op.format && failed(m),
                _ => false,
            }
        } else if op.operation_type@ == "write"@ {
            calls.len() == 1 && calls[0].0 == id && match calls[0].1 {
                Call::WriteFile { path, format, answer: Err(m) } => path == op.path@ && format
                    == op.format && failed(m),
                _ => false,
            }
        } else {
            calls.len() == 0 && e == ExecError::UnsupportedOperation {
                node_id: n.id,
                operation_type: op.operation_type,
            }
        },
        Operation::PythonCode(op) => calls.len() == 1 && calls[0].0 == id && match calls[0].1 {
            Call::RunCode { code, use_sandbox, answer: Err(m) } => code == op.code@ && use_sandbox
                == op.use_sandbox && failed(m),
            _ => false,
        },
        Operation::RustCode(_) => false,
        Operation::Print(op) => calls.len() == 0 && !cache.contains_key(op.value_ref@) && e
            == ExecError::Reference { node_id: n.id, value_ref: op.value_ref },
        Operation::Return(op) => calls.len() == 0 && !cache.contains_key(op.value_ref@) && e
            == ExecError::Reference { node_id: n.id, value_ref: op.value_ref },
    }
}

/// The calls expected of the nodes `ids`, in order, with their results in
/// `cache`.
pub open spec fn calls_of(
    ids: Seq<Seq<char>>,
    graph: IRGraph,
    root: IRNode,
    cache: Map<Seq<char>, ExecutionResult>,
) -> Seq<Logged>
    decreases ids.len(),
{
    if ids.len() == 0 {
        Seq::empty()
    } else {
        calls_of(ids.drop_last(), graph, root, cache) + expected_calls(
            node_of(graph, root, ids.last()),
            cache[ids.last()],
        )
    }
}

/// The node id that an error of a node's own operation names.
pub open spec fn err_node(e: ExecError) -> Seq<char> {
    match e {
        ExecError::Reference { node_id, .. } => node_id@,
        ExecError::UnsupportedOperation { node_id, .. } => node_id@,
        ExecError::EffectHandler { node_id, .. } => node_id@,
        ExecError::GraphStructure { missing_id } => missing_id@,
        ExecError::GraphCycle { node_id } => node_id@,
    }
}

/// `id` is reached from `root` through dependencies.
pub open spec fn reaches(graph: IRGraph, root: IRNode, id: Seq<char>) -> bool {
    exists|chain: Seq<Seq<char>>|
        chain.len() >= 1 && chain[0] == root.id@ && #[trigger] chain.last() == id && forall|k: int|
            0 <= k < chain.len() - 1 ==> lists(node_of(graph, root, #[trigger] chain[k]), chain[k + 1])
}

/// Error `e`, with the calls `tail` made after the last completed node, has
/// its cause in a run from `root`, as the executor stands after it:
/// - a structure error: the id names no node, and a node reached from
///   `root` lists it after dependencies that all have results;
/// - a cycle error: the id, reached from `root`, lists itself through its
///   dependencies;
/// - any other: the node it names is reached from `root`, has all its
///   dependencies' results and no result of its own, and its operation
///   failed with `e` after `tail`.
pub open spec fn explained(
    graph: IRGraph,
    root: IRNode,
    post: GraphExecutor,
    e: ExecError,
    tail: Seq<Logged>,
) -> bool {
    match e {
        ExecError::GraphStructure { missing_id } => {
            &&& tail.len() == 0
            &&& !graph.has_node(missing_id@)
            &&& exists|a: Seq<char>, k: int|
                known(graph, root, a) && reaches(graph, root, a) && 0 <= k < node_of(graph, root, a).dependencies@.len()
                    && #[trigger] node_of(graph, root, a).dependencies@[k]@ == missing_id@
                    && forall|j: int|
                    0 <= j < k ==> post.cache().contains_key(
                        #[trigger] node_of(graph, root, a).dependencies@[j]@,
                    )
        },
        ExecError::GraphCycle { node_id } => {
            &&& tail.len() == 0
            &&& exists|chain: Seq<Seq<char>>| is_cycle(graph, root, chain) && #[trigger] chain[0]
                == node_id@
            &&& reaches(graph, root, node_id@)
        },
        _ => {
            let n = node_of(graph, root, err_node(e));
            &&& known(graph, root, err_node(e))
            &&& reaches(graph, root, err_node(e))
            &&& deps_cached(n, post.cache())
            &&& !post.cache().contains_key(err_node(e))
            &&& dispatch_err(n, post.cache(), e, tail)
        },
    }
}

/// Runs `graph`'s nodes, each at most once while its result stays cached,
/// and keeps a log of the calls it makes to its effect handler.
pub struct GraphExecutor {
    results: DashMap<String, ExecutionResult>,
    completed: Ghost<Seq<Seq<char>>>,
    calls: Ghost<Seq<Logged>>,
}

/// The ids completed from `pre` to `post`.
pub open spec fn new_ids(pre: GraphExecutor, post: GraphExecutor) -> Seq<Seq<char>> {
    post.completed().subrange(pre.completed().len() as int, post.completed().len() as int)
}

/// Entry `p` of `post`'s completed ids ran as the node that stands for it,
/// after its dependencies, with a result its operation can give.
pub open spec fn completed_well(post: GraphExecutor, p: int, graph: IRGraph, root: IRNode) -> bool {
    let id = post.completed()[p];
    &&& known(graph, root, id)
    &&& deps_done_before(post.completed(), p, node_of(graph, root, id))
    &&& ok_value(node_of(graph, root, id), post.cache(), post.cache()[id])
}

/// How a run from `root` over `graph` takes the executor from `pre` to
/// `post`, whatever its outcome: cached results stay, completed ids are only
/// appended, each completed as [`completed_well`] says, and the log grows by
/// the expected calls of the completed nodes, in order, then by `tail`.
pub open spec fn run_step(
    pre: GraphExecutor,
    post: GraphExecutor,
    graph: IRGraph,
    root: IRNode,
    tail: Seq<Logged>,
) -> bool {
    &&& post.wf()
    &&& pre.cache().submap_of(post.cache())
    &&& extends(pre.completed(), post.completed())
    &&& forall|p: int|
        pre.completed().len() <= p < post.completed().len() ==> #[trigger] completed_well(
            post,
            p,
            graph,
            root,
        )
    &&& post.calls() == pre.calls() + calls_of(new_ids(pre, post), graph, root, post.cache()) + tail
}

/// The calls made after the expected calls of the completed nodes.
pub open spec fn tail_of(pre: GraphExecutor, post: GraphExecutor, graph: IRGraph, root: IRNode) -> Seq<
    Logged,
> {
    post.calls().subrange(
        (pre.calls().len() + calls_of(new_ids(pre, post), graph, root, post.cache()).len()) as int,
        post.calls().len() as int,
    )
}

/// Every dependency of `node` is another node of `graph`, with a cached
/// result.
pub open spec fn deps_ready(node: IRNode, graph: IRGraph, cache: Map<Seq<char>, ExecutionResult>) -> bool {
    forall|d: int|
        0 <= d < node.dependencies@.len() ==> cache.contains_key(#[trigger] node.dependencies@[d]@)
            && graph.has_node(node.dependencies@[d]@) && node.dependencies@[d]@ != node.id@
}

/// What a run of `node`, in a run started at `root`, does: the cached
/// result if there is one, with nothing changed and no call made; else the
/// steps of [`run_step`], with success caching the result under the node's
/// id as the last completed id, and failure explained. A node whose first
/// dependency is unknown fails at once, naming it; a node whose dependencies
/// are ready runs its own operation only, as [`dispatched`] says.
pub open spec fn node_run(
    pre: GraphExecutor,
    post: GraphExecutor,
    node: IRNode,
    graph: IRGraph,
    root: IRNode,
    r: Result<ExecutionResult, ExecError>,
) -> bool {
    let tail = tail_of(pre, post, graph, root);
    &&& run_step(pre, post, graph, root, tail)
    &&& pre.cache().contains_key(node.id@) ==> r == Ok::<ExecutionResult, ExecError>(
        pre.cache()[node.id@],
    ) && post == pre
    &&& match r {
        Ok(v) => post.cache().contains_key(node.id@) && post.cache()[node.id@] == v && tail.len()
            == 0,
        Err(e) => !post.cache().contains_key(node.id@) && explained(graph, root, post, e, tail),
    }
    &&& !pre.cache().contains_key(node.id@) && r is Ok ==> post.completed().len() > 0
        && post.completed().last() == node.id@
    &&& !pre.cache().contains_key(node.id@) && node.dependencies@.len() > 0 && !known(
        graph,
        root,
        node.dependencies@[0]@,
    ) ==> post == pre && match r {
        Err(ExecError::GraphStructure { missing_id }) => missing_id@ == node.dependencies@[0]@,
        _ => false,
    }
    &&& !pre.cache().contains_key(node.id@) && deps_ready(node, graph, pre.cache()) ==> dispatched(
        node,
        pre.cache(),
        r,
        pre.calls(),
        post.calls(),
    ) && (r is Err ==> post.cache() == pre.cache() && post.completed() == pre.completed())
}

/// What a run of `graph` from its entry point does: a structure error with
/// nothing changed if no node has the entry's id; else a run of the first
/// such node.
pub open spec fn graph_run(
    pre: GraphExecutor,
    post: GraphExecutor,
    graph: IRGraph,
    r: Result<ExecutionResult, ExecError>,
) -> bool {
    let entry = graph.entry_point@;
    &&& !graph.has_node(entry) ==> post == pre && match r {
        Err(ExecError::GraphStructure { missing_id }) => missing_id@ == entry,
        _ => false,
    }
    &&& forall|i: int|
        first_with_id(graph, i, entry) ==> node_run(pre, post, graph.nodes@[i], graph, graph.nodes@[i], r)
}

/// The ids held by `path`.
pub open spec fn ids_of(path: Seq<String>) -> Seq<Seq<char>> {
    path.map_values(|s: String| s@)
}

/// The path of nodes being resolved: no id twice, and all but the first the
/// id of a node of `graph`.
pub open spec fn path_ok(path: Seq<String>, graph: IRGraph) -> bool {
    &&& ids_of(path).no_duplicates()
    &&& forall|k: int| 1 <= k < path.len() ==> graph.has_node(#[trigger] path[k]@)
}

fn in_path(path: &Vec<String>, id: &String) -> (b: bool)
    ensures
        b == ids_of(path@).contains(id@),
{
    let mut i: usize = 0;
    while i < path.len()
        invariant
            i <= path@.len(),
            forall|j: int| 0 <= j < i ==> path@[j]@ != id@,
        decreases path@.len() - i,
    {
        if path[i] == *id {
            assert(ids_of(path@)[i as int] == id@);
            return true;
        }
        i += 1;
    }
    proof {
        if ids_of(path@).contains(id@) {
            let k = choose|k: int| 0 <= k < ids_of(path@).len() && ids_of(path@)[k] == id@;
            assert(path@[k]@ == id@);
        }
    }
    false
}

/// A path that holds no id twice, all but its first taken from `graph`, is
/// at most one longer than the graph.
proof fn lemma_path_len(path: Seq<String>, graph: IRGraph)
    requires
        path_ok(path, graph),
    ensures
        path.len() <= graph.nodes@.len() + 1,
{
    if path.len() > 0 {
        let rest = ids_of(path).drop_first();
        let all = graph.nodes@.map_values(|n: IRNode| n.id@);
        assert(rest.no_duplicates()) by {
            assert forall|a: int, b: int| 0 <= a < rest.len() && 0 <= b < rest.len() && a != b
                implies rest[a] != rest[b] by {
                assert(rest[a] == ids_of(path)[a + 1]);
                assert(rest[b] == ids_of(path)[b + 1]);
            }
        }
        rest.unique_seq_to_set();
        all.lemma_cardinality_of_set();
        assert(rest.to_set().subset_of(all.to_set())) by {
            assert forall|x: Seq<char>| rest.to_set().contains(x) implies all.to_set().contains(x) by {
                let a = choose|a: int| 0 <= a < rest.len() && rest[a] == x;
                assert(path[a + 1]@ == x);
                assert(graph.has_node(path[a + 1]@));
                let i = choose|i: int| 0 <= i < graph.nodes@.len() && #[trigger] graph.nodes@[i].id@ == x;
                assert(all[i] == x);
            }
        }
        vstd::set_lib::lemma_len_subset(rest.to_set(), all.to_set());
    }
}

proof fn lemma_submap_trans(
    a: Map<Seq<char>, ExecutionResult>,
    b: Map<Seq<char>, ExecutionResult>,
    c: Map<Seq<char>, ExecutionResult>,
)
    requires
        a.submap_of(b),
        b.submap_of(c),
    ensures
        a.submap_of(c),
{
    assert forall|k: Seq<char>| #[trigger] a.contains_key(k) implies c.contains_key(k) && c[k] == a[k] by {
        assert(a.dom().contains(k));
        assert(b.dom().contains(k));
        assert(c.dom().contains(k));
        assert(b[k] == a[k]);
    }
}

proof fn lemma_node_of_first(graph: IRGraph, root: IRNode, i: int, id: Seq<char>)
    requires
        first_with_id(graph, i, id),
        id != root.id@,
    ensures
        node_of(graph, root, id) == graph.nodes@[i],
{
    let j = choose|j: int| first_with_id(graph, j, id);
    if j < i {
        assert(graph.nodes@[j].id@ != id);
    } else if j > i {
        assert(graph.nodes@[i].id@ != id);
    }
}

proof fn lemma_submap_at(
    a: Map<Seq<char>, ExecutionResult>,
    b: Map<Seq<char>, ExecutionResult>,
    k: Seq<char>,
)
    requires
        a.submap_of(b),
        a.contains_key(k),
    ensures
        b.contains_key(k),
        b[k] == a[k],
{
    assert(a.dom().contains(k) ==> b.dom().contains(k) && a[k] == b[k]);
}

proof fn lemma_calls_stable(
    ids: Seq<Seq<char>>,
    graph: IRGraph,
    root: IRNode,
    c1: Map<Seq<char>, ExecutionResult>,
    c2: Map<Seq<char>, ExecutionResult>,
)
    requires
        c1.submap_of(c2),
        forall|k: int| 0 <= k < ids.len() ==> c1.contains_key(#[trigger] ids[k]),
    ensures
        calls_of(ids, graph, root, c1) == calls_of(ids, graph, root, c2),
    decreases ids.len(),
{
    if ids.len() > 0 {
        let rest = ids.drop_last();
        assert forall|k: int| 0 <= k < rest.len() implies c1.contains_key(#[trigger] rest[k]) by {
            assert(rest[k] == ids[k]);
        }
        lemma_calls_stable(rest, graph, root, c1, c2);
        assert(c1.contains_key(ids[ids.len() - 1]));
        lemma_submap_at(c1, c2, ids.last());
    }
}

proof fn lemma_calls_concat(
    a: Seq<Seq<char>>,
    b: Seq<Seq<char>>,
    graph: IRGraph,
    root: IRNode,
    c: Map<Seq<char>, ExecutionResult>,
)
    ensures
        calls_of(a + b, graph, root, c) == calls_of(a, graph, root, c) + calls_of(b, graph, root, c),
    decreases b.len(),
{
    if b.len() == 0 {
        assert(a + b =~= a);
        assert(calls_of(a, graph, root, c) + calls_of(b, graph, root, c) =~= calls_of(a, graph, root, c));
    } else {
        let b1 = b.drop_last();
        lemma_calls_concat(a, b1, graph, root, c);
        assert((a + b).drop_last() =~= a + b1);
        assert((a + b).last() == b.last());
        assert(calls_of(a, graph, root, c) + calls_of(b1, graph, root, c) + expected_calls(
            node_of(graph, root, b.last()),
            c[b.last()],
        ) =~= calls_of(a, graph, root, c) + (calls_of(b1, graph, root, c) + expected_calls(
            node_of(graph, root, b.last()),
            c[b.last()],
        )));
    }
}

/// A completed entry stays well completed as later runs add results and
/// entries.
proof fn lemma_well_kept(a: GraphExecutor, b: GraphExecutor, p: int, graph: IRGraph, root: IRNode)
    requires
        a.wf(),
        extends(a.completed(), b.completed()),
        a.cache().submap_of(b.cache()),
        0 <= p < a.completed().len(),
        completed_well(a, p, graph, root),
    ensures
        completed_well(b, p, graph, root),
{
    let id = a.completed()[p];
    assert(b.completed()[p] == id);
    let n = node_of(graph, root, id);
    assert forall|d: int| 0 <= d < n.dependencies@.len() implies #[trigger] done_before(
        b.completed(),
        p,
        n.dependencies@[d]@,
    ) by {
        assert(done_before(a.completed(), p, n.dependencies@[d]@));
        let q = choose|q: int| 0 <= q < p && #[trigger] a.completed()[q] == n.dependencies@[d]@;
        assert(b.completed()[q] == a.completed()[q]);
    }
    assert(a.completed().contains(id));
    assert(a.cache().contains_key(id));
    lemma_submap_at(a.cache(), b.cache(), id);
    match n.operation {
        Operation::Print(op) => {
            lemma_submap_at(a.cache(), b.cache(), op.value_ref@);
        },
        Operation::Return(op) => {
            lemma_submap_at(a.cache(), b.cache(), op.value_ref@);
        },
        _ => {},
    }
}

/// The ids in `chain` each list the next.
pub open spec fn chain_ok(chain: Seq<Seq<char>>, graph: IRGraph, root: IRNode) -> bool {
    forall|k: int|
        0 <= k < chain.len() - 1 ==> lists(node_of(graph, root, #[trigger] chain[k]), chain[k + 1])
}

/// What `dispatch` does: the log grows by the calls of `node`'s operation,
/// and the result is mapped from their answers.
pub open spec fn dispatched(
    node: IRNode,
    cache: Map<Seq<char>, ExecutionResult>,
    r: Result<ExecutionResult, ExecError>,
    pre: Seq<Logged>,
    post: Seq<Logged>,
) -> bool {
    let tail = post.subrange(pre.len() as int, post.len() as int);
    &&& pre.len() <= post.len()
    &&& post == pre + tail
    &&& match r {
        Ok(v) => ok_value(node, cache, v) && tail == expected_calls(node, v),
        Err(e) => dispatch_err(node, cache, e, tail),
    }
}

/// The result of a collaborator's textual answer for node `node_id`.
pub fn text_result(node_id: &String, out: Result<String, String>) -> (r: Result<
    ExecutionResult,
    ExecError,
>)
    ensures
        r == match out {
            Ok(s) => Ok::<ExecutionResult, ExecError>(ExecutionResult::String(s)),
            Err(m) => Err(ExecError::EffectHandler { node_id: *node_id, message: m }),
        },
{
    match out {
        Ok(s) => Ok(ExecutionResult::String(s)),
        Err(m) => Err(ExecError::EffectHandler { node_id: node_id.clone(), message: m }),
    }
}

/// The result of a transform's answer for node `node_id`.
pub fn transform_result(node_id: &String, out: Result<TransformOutput, String>) -> (r: Result<
    ExecutionResult,
    ExecError,
>)
    ensures
        r == match out {
            Ok(TransformOutput::Text(s)) => Ok::<ExecutionResult, ExecError>(
                ExecutionResult::String(s),
            ),
            Ok(TransformOutput::Structured(v)) => Ok(ExecutionResult::Object(v)),
            Err(m) => Err(ExecError::EffectHandler { node_id: *node_id, message: m }),
        },
{
    match out {
        Ok(TransformOutput::Text(s)) => Ok(ExecutionResult::String(s)),
        Ok(TransformOutput::Structured(v)) => Ok(ExecutionResult::Object(v)),
        Err(m) => Err(ExecError::EffectHandler { node_id: node_id.clone(), message: m }),
    }
}

proof fn lemma_tail(pre: GraphExecutor, post: GraphExecutor, graph: IRGraph, root: IRNode, t: Seq<Logged>)
    requires
        run_step(pre, post, graph, root, t),
    ensures
        tail_of(pre, post, graph, root) == t,
{
    let a = pre.calls();
    let b = calls_of(new_ids(pre, post), graph, root, post.cache());
    assert(post.calls().subrange((a.len() + b.len()) as int, post.calls().len() as int) =~= t);
}

proof fn lemma_step_trans(
    pre: GraphExecutor,
    mid: GraphExecutor,
    post: GraphExecutor,
    graph: IRGraph,
    root: IRNode,
    t: Seq<Logged>,
)
    requires
        pre.wf(),
        run_step(pre, mid, graph, root, Seq::empty()),
        run_step(mid, post, graph, root, t),
    ensures
        run_step(pre, post, graph, root, t),
{
    lemma_submap_trans(pre.cache(), mid.cache(), post.cache());
    assert forall|p: int| 0 <= p < pre.completed().len() implies #[trigger] post.completed()[p]
        == pre.completed()[p] by {
        assert(mid.completed()[p] == pre.completed()[p]);
    }
    assert forall|p: int|
        pre.completed().len() <= p < post.completed().len() implies #[trigger] completed_well(
        post,
        p,
        graph,
        root,
    ) by {
        if p < mid.completed().len() {
            assert(completed_well(mid, p, graph, root));
            lemma_well_kept(mid, post, p, graph, root);
        }
    }
    let n1 = new_ids(pre, mid);
    let n2 = new_ids(mid, post);
    assert(new_ids(pre, post) =~= n1 + n2);
    assert forall|k: int| 0 <= k < n1.len() implies mid.cache().contains_key(#[trigger] n1[k]) by {
        assert(n1[k] == mid.completed()[pre.completed().len() + k]);
        assert(mid.completed().contains(n1[k]));
    }
    lemma_calls_stable(n1, graph, root, mid.cache(), post.cache());
    lemma_calls_concat(n1, n2, graph, root, post.cache());
    assert(post.calls() =~= pre.calls() + calls_of(new_ids(pre, post), graph, root, post.cache())
        + t);
}

impl GraphExecutor {
    /// The cached results, by node id.
    pub closed spec fn cache(&self) -> Map<Seq<char>, ExecutionResult> {
        results_of(self.results)
    }

    /// The ids of the nodes whose operation has run and whose result was
    /// cached, in the order in which they completed, since the cache was last
    /// emptied.
    pub closed spec fn completed(&self) -> Seq<Seq<char>> {
        self.completed@
    }

    /// Every call made to an effect handler by this executor, in order.
    pub closed spec fn calls(&self) -> Seq<Logged> {
        self.calls@
    }

    /// Each node completed at most once, and exactly the completed nodes have
    /// a cached result.
    pub open spec fn wf(&self) -> bool {
        &&& self.completed().no_duplicates()
        &&& forall|k: Seq<char>| #[trigger]
            self.cache().contains_key(k) <==> self.completed().contains(k)
    }

    pub fn new() -> (e: GraphExecutor)
        ensures
            e.wf(),
            e.cache() =~= Map::empty(),
            e.completed() =~= Seq::empty(),
            e.calls() =~= Seq::empty(),
    {
        GraphExecutor { results: results_new(), completed: Ghost(Seq::empty()), calls: Ghost(Seq::empty()) }
    }

    /// Runs the graph from its entry point: the first node whose id is
    /// `graph.entry_point`. Fails with a structure error if there is none.
    pub fn execute_graph<H: EffectHandler>(&mut self, graph: &IRGraph, handler: &mut H) -> (r:
        Result<ExecutionResult, ExecError>)
        requires
            old(self).wf(),
        ensures
            graph_run(*old(self), *final(self), *graph, r),
    {
        match graph.find_node(&graph.entry_point) {
            None => Err(ExecError::GraphStructure { missing_id: graph.entry_point.clone() }),
            Some(idx) => {
                let mut path: Vec<String> = Vec::new();
                assert(ids_of(path@) =~= Seq::empty());
                let r = self.run(&graph.nodes[idx], graph, &mut path, handler, Ghost(graph.nodes@[idx as int]));
                proof {
                    assert forall|i: int| first_with_id(*graph, i, graph.entry_point@) implies i == idx by {
                        if i < idx {
                        } else if i > idx {
                            assert(graph.nodes@[idx as int].id@ == graph.entry_point@);
                        }
                    }
                }
                r
            },
        }
    }

    /// Runs `node`: its cached result if there is one; else its dependencies,
    /// looked up in `graph`, in order, then its own operation, whose result
    /// is cached.
    pub fn execute_node<H: EffectHandler>(
        &mut self,
        node: &IRNode,
        graph: &IRGraph,
        handler: &mut H,
    ) -> (r: Result<ExecutionResult, ExecError>)
        requires
            old(self).wf(),
        ensures
            node_run(*old(self), *final(self), *node, *graph, *node, r),
    {
        let mut path: Vec<String> = Vec::new();
        assert(ids_of(path@) =~= Seq::empty());
        self.run(node, graph, &mut path, handler, Ghost(*node))
    }

    /// The cached result of node `node_id`, if any.
    pub fn get_result(&self, node_id: &str) -> (r: Option<ExecutionResult>)
        ensures
            r == (if self.cache().contains_key(node_id@) {
                Some(self.cache()[node_id@])
            } else {
                None
            }),
    {
        results_get(&self.results, node_id)
    }

    /// Empties the cache: every node runs again on the next execution.
    pub fn clear_results(&mut self)
        ensures
            final(self).wf(),
            final(self).cache() =~= Map::empty(),
            final(self).completed() =~= Seq::empty(),
            final(self).calls() == old(self).calls(),
    {
        results_clear(&mut self.results);
        self.completed = Ghost(Seq::empty());
    }

    fn call_query<H: EffectHandler>(&mut self, handler: &mut H, id: &String, query: &String, params: &Option<Vec<String>>) -> (out: Result<String, String>)
        ensures
            final(self).cache() == old(self).cache(),
            final(self).completed() == old(self).completed(),
            final(self).calls() == old(self).calls().push((id@, Call::Query { query: query@, params: *params, answer: out })),
    {
        let out = handler.run_query(query.as_str(), params);
        self.calls = Ghost(self.calls@.push((id@, Call::Query { query: query@, params: *params, answer: out })));
        out
    }

    fn call_transform<H: EffectHandler>(&mut self, handler: &mut H, id: &String, transform_type: &String, args: &serde_json::Value) -> (out: Result<TransformOutput, String>)
        ensures
            final(self).cache() == old(self).cache(),
            final(self).completed() == old(self).completed(),
            final(self).calls() == old(self).calls().push((id@, Call::Transform { transform_type: transform_type@, args: *args, answer: out })),
    {
        let out = handler.transform(transform_type.as_str(), args);
        self.calls = Ghost(self.calls@.push((id@, Call::Transform { transform_type: transform_type@, args: *args, answer: out })));
        out
    }

    fn call_read<H: EffectHandler>(&mut self, handler: &mut H, id: &String, path: &String, format: &Option<String>) -> (out: Result<String, String>)
        ensures
            final(self).cache() == old(self).cache(),
            final(self).completed() == old(self).completed(),
            final(self).calls() == old(self).calls().push((id@, Call::ReadFile { path: path@, format: *format, answer: out })),
    {
        let out = handler.read_file(path.as_str(), format);
        self.calls = Ghost(self.calls@.push((id@, Call::ReadFile { path: path@, format: *format, answer: out })));
        out
    }

    fn call_write<H: EffectHandler>(&mut self, handler: &mut H, id: &String, path: &String, format: &Option<String>) -> (out: Result<String, String>)
        ensures
            final(self).cache() == old(self).cache(),
            final(self).completed() == old(self).completed(),
            final(self).calls() == old(self).calls().push((id@, Call::WriteFile { path: path@, format: *format, answer: out })),
    {
        let out = handler.write_file(path.as_str(), format);
        self.calls = Ghost(self.calls@.push((id@, Call::WriteFile { path: path@, format: *format, answer: out })));
        out
    }

    fn call_code<H: EffectHandler>(&mut self, handler: &mut H, id: &String, code: &String, use_sandbox: bool) -> (out: Result<String, String>)
        ensures
            final(self).cache() == old(self).cache(),
            final(self).completed() == old(self).completed(),
            final(self).calls() == old(self).calls().push((id@, Call::RunCode { code: code@, use_sandbox, answer: out })),
    {
        let out = handler.run_code(code.as_str(), use_sandbox);
        self.calls = Ghost(self.calls@.push((id@, Call::RunCode { code: code@, use_sandbox, answer: out })));
        out
    }

    fn call_emit<H: EffectHandler>(&mut self, handler: &mut H, id: &String, value: &ExecutionResult)
        ensures
            final(self).cache() == old(self).cache(),
            final(self).completed() == old(self).completed(),
            final(self).calls() == old(self).calls().push((id@, Call::Emit { value: *value })),
    {
        let text = value.to_string();
        handler.emit(text.as_str());
        self.calls = Ghost(self.calls@.push((id@, Call::Emit { value: *value })));
    }

    /// Runs `node`'s own operation against the results cached so far, making
    /// the one call to the effect handler that its operation needs.
    pub fn dispatch<H: EffectHandler>(&mut self, node: &IRNode, handler: &mut H) -> (r: Result<
        ExecutionResult,
        ExecError,
    >)
        ensures
            final(self).cache() == old(self).cache(),
            final(self).completed() == old(self).completed(),
            dispatched(*node, old(self).cache(), r, old(self).calls(), final(self).calls()),
    {
        let ghost c0 = self.calls@;
        let r = match &node.operation {
            Operation::SQLQuery(op) => {
                let out = self.call_query(handler, &node.id, &op.query, &op.params);
                text_result(&node.id, out)
            },
            Operation::DataTransform(op) => {
                let out = self.call_transform(handler, &node.id, &op.transform_type, &op.args);
                transform_result(&node.id, out)
            },
            Operation::FileIO(op) => {
                let read = "read".to_owned();
                let write = "write".to_owned();
                if op.operation_type == read {
                    let out = self.call_read(handler, &node.id, &op.path, &op.format);
                    text_result(&node.id, out)
                } else if op.operation_type == write {
                    let out = self.call_write(handler, &node.id, &op.path, &op.format);
                    text_result(&node.id, out)
                } else {
                    Err(
                        ExecError::UnsupportedOperation {
                            node_id: node.id.clone(),
                            operation_type: op.operation_type.clone(),
                        },
                    )
                }
            },
            Operation::PythonCode(op) => {
                let out = self.call_code(handler, &node.id, &op.code, op.use_sandbox);
                text_result(&node.id, out)
            },
            Operation::RustCode(_) => Ok(ExecutionResult::String(NATIVE_PLACEHOLDER.to_owned())),
            Operation::Print(op) => match results_get(&self.results, op.value_ref.as_str()) {
                Some(v) => {
                    self.call_emit(handler, &node.id, &v);
                    Ok(v)
                },
                None => Err(
                    ExecError::Reference {
                        node_id: node.id.clone(),
                        value_ref: op.value_ref.clone(),
                    },
                ),
            },
            Operation::Return(op) => match results_get(&self.results, op.value_ref.as_str()) {
                Some(v) => Ok(v),
                None => Err(
                    ExecError::Reference {
                        node_id: node.id.clone(),
                        value_ref: op.value_ref.clone(),
                    },
                ),
            },
        };
        proof {
            let tail = self.calls@.subrange(c0.len() as int, self.calls@.len() as int);
            assert(self.calls@ =~= c0 + tail);
            if self.calls@.len() == c0.len() + 1 {
                assert(tail =~= seq![self.calls@.last()]);
            } else {
                assert(tail =~= Seq::<Logged>::empty());
            }
        }
        r
    }

    /// Resolves `node` in a run started at `root`: its cached result if
    /// there is one; else its dependencies in order, then its own operation,
    /// whose result is cached. `path` holds the ids being resolved.
    fn run<H: EffectHandler>(
        &mut self,
        node: &IRNode,
        graph: &IRGraph,
        path: &mut Vec<String>,
        handler: &mut H,
        Ghost(root): Ghost<IRNode>,
    ) -> (r: Result<ExecutionResult, ExecError>)
        requires
            old(self).wf(),
            path_ok(old(path)@, *graph),
            chain_ok(ids_of(old(path)@), *graph, root),
            !ids_of(old(path)@).contains(node.id@),
            forall|k: Seq<char>| #[trigger] ids_of(old(path)@).contains(k) ==> !old(self).cache().contains_key(k),
            *node == node_of(*graph, root, node.id@),
            known(*graph, root, node.id@),
            old(path)@.len() == 0 ==> node.id@ == root.id@,
            old(path)@.len() > 0 ==> ids_of(old(path)@)[0] == root.id@ && lists(
                node_of(*graph, root, ids_of(old(path)@).last()),
                node.id@,
            ),
        ensures
            final(path)@ == old(path)@,
            node_run(*old(self), *final(self), *node, *graph, root, r),
            forall|k: Seq<char>|
                ids_of(old(path)@).contains(k) && !old(self).cache().contains_key(k)
                    ==> !#[trigger] final(self).cache().contains_key(k),
        decreases graph.nodes@.len() + 1 - old(path)@.len(),
    {
        let ghost pre = *self;
        if let Some(v) = results_get(&self.results, node.id.as_str()) {
            proof {
                assert(new_ids(pre, pre) =~= Seq::empty());
                assert(pre.calls() =~= pre.calls() + calls_of(new_ids(pre, pre), *graph, root, pre.cache()) + Seq::empty());
                lemma_tail(pre, pre, *graph, root, Seq::empty());
            }
            return Ok(v);
        }
        let ghost path0 = path@;
        path.push(node.id.clone());
        proof {
            assert(ids_of(path@) =~= ids_of(path0).push(node.id@));
            assert forall|k: int| 1 <= k < path@.len() implies graph.has_node(#[trigger] path@[k]@) by {
                if k == path0.len() {
                    assert(node.id@ != root.id@);
                } else {
                    assert(path@[k] == path0[k]);
                }
            }
            assert forall|k: int| 0 <= k < ids_of(path@).len() - 1 implies lists(
                node_of(*graph, root, #[trigger] ids_of(path@)[k]),
                ids_of(path@)[k + 1],
            ) by {
                if k + 1 < path0.len() {
                    assert(ids_of(path@)[k] == ids_of(path0)[k]);
                    assert(ids_of(path@)[k + 1] == ids_of(path0)[k + 1]);
                } else {
                    assert(ids_of(path@)[k] == ids_of(path0).last());
                }
            }
            lemma_path_len(path@, *graph);
            assert(new_ids(pre, pre) =~= Seq::empty());
            assert(pre.calls() =~= pre.calls() + calls_of(new_ids(pre, pre), *graph, root, pre.cache()) + Seq::empty());
        }
        let mut i: usize = 0;
        while i < node.dependencies.len()
            invariant
                pre == *old(self),
                path0 == old(path)@,
                pre.wf(),
                !pre.cache().contains_key(node.id@),
                path@ == path0.push(node.id),
                path_ok(path@, *graph),
                chain_ok(ids_of(path@), *graph, root),
                ids_of(path@) == ids_of(path0).push(node.id@),
                ids_of(path@)[0] == root.id@,
                path0.len() + 1 <= graph.nodes@.len() + 1,
                *node == node_of(*graph, root, node.id@),
                known(*graph, root, node.id@),
                run_step(pre, *self, *graph, root, Seq::empty()),
                !self.cache().contains_key(node.id@),
                forall|k: Seq<char>|
                    ids_of(path0).contains(k) && !pre.cache().contains_key(k)
                        ==> !#[trigger] self.cache().contains_key(k),
                forall|j: int| 0 <= j < i ==> #[trigger] self.cache().contains_key(
                    node.dependencies@[j]@,
                ),
                i <= node.dependencies@.len(),
                i == 0 ==> *self == pre,
                node.dependencies@.len() > 0 && !known(*graph, root, node.dependencies@[0]@) ==> i == 0,
                deps_ready(*node, *graph, pre.cache()) ==> *self == pre,
                forall|k: Seq<char>| #[trigger] ids_of(path0).contains(k) ==> !pre.cache().contains_key(k),
            decreases node.dependencies@.len() - i,
        {
            let dep_id = &node.dependencies[i];
            if in_path(path, dep_id) {
                proof {
                    let ids = ids_of(path@);
                    let j = choose|j: int| 0 <= j < ids.len() && ids[j] == dep_id@;
                    let chain = ids.subrange(j, ids.len() as int).push(dep_id@);
                    if j == 0 {
                        assert(dep_id@ == root.id@);
                    } else {
                        assert(graph.has_node(path@[j]@));
                    }
                    assert(known(*graph, root, dep_id@));
                    if deps_ready(*node, *graph, pre.cache()) {
                        assert(pre.cache().contains_key(node.dependencies@[i as int]@));
                        if j < path0.len() {
                            assert(ids_of(path0)[j] == dep_id@);
                            assert(ids_of(path0).contains(dep_id@));
                            assert(false);
                        } else {
                            assert(dep_id@ == node.id@);
                            assert(false);
                        }
                    }
                    assert forall|k: int| 0 <= k < chain.len() - 1 implies lists(
                        node_of(*graph, root, #[trigger] chain[k]),
                        chain[k + 1],
                    ) by {
                        if j + k + 1 < ids.len() {
                            assert(chain[k] == ids[j + k]);
                            assert(chain[k + 1] == ids[j + k + 1]);
                        } else {
                            assert(chain[k] == node.id@);
                            assert(node.dependencies@[i as int]@ == dep_id@);
                        }
                    }
                    assert(is_cycle(*graph, root, chain));
                    let pre_chain = ids.subrange(0, j + 1);
                    assert(pre_chain.last() == dep_id@);
                    assert forall|k: int| 0 <= k < pre_chain.len() - 1 implies lists(
                        node_of(*graph, root, #[trigger] pre_chain[k]),
                        pre_chain[k + 1],
                    ) by {
                        assert(pre_chain[k] == ids[k]);
                        assert(pre_chain[k + 1] == ids[k + 1]);
                    }
                    assert(reaches(*graph, root, dep_id@));
                    lemma_tail(pre, *self, *graph, root, Seq::empty());
                }
                path.pop();
                assert(path@ =~= path0);
                return Err(ExecError::GraphCycle { node_id: dep_id.clone() });
            }
            let found = graph.find_node(dep_id);
            match found {
                None => {
                    proof {
                        assert(deps_ready(*node, *graph, pre.cache()) ==> graph.has_node(node.dependencies@[i as int]@));
                        assert(node_of(*graph, root, node.id@).dependencies@[i as int]@ == dep_id@);
                        assert(ids_of(path@).last() == node.id@);
                        assert(reaches(*graph, root, node.id@));
                        lemma_tail(pre, *self, *graph, root, Seq::empty());
                    }
                    path.pop();
                    assert(path@ =~= path0);
                    return Err(ExecError::GraphStructure { missing_id: dep_id.clone() });
                },
                Some(idx) => {
                    let ghost mid = *self;
                    proof {
                        assert(ids_of(path@)[0] == root.id@);
                        assert(dep_id@ != root.id@);
                        lemma_node_of_first(*graph, root, idx as int, dep_id@);
                        assert(ids_of(path@).last() == node.id@);
                        assert(graph.has_node(dep_id@));
                        assert(ids_of(path@) =~= ids_of(path0).push(node.id@));
                        assert forall|k: Seq<char>| #[trigger] ids_of(path@).contains(k) implies !self.cache().contains_key(k) by {
                            let q = choose|q: int| 0 <= q < ids_of(path@).len() && ids_of(path@)[q] == k;
                            if q < path0.len() {
                                assert(ids_of(path0)[q] == k);
                                assert(ids_of(path0).contains(k));
                            }
                        }
                        assert(deps_ready(*node, *graph, pre.cache()) ==> self.cache().contains_key(node.dependencies@[i as int]@));
                    }
                    let res = self.run(&graph.nodes[idx], graph, path, handler, Ghost(root));
                    proof {
                        let ext = ids_of(path0.push(node.id));
                        assert(ids_of(path@) =~= ext);
                        assert(ext[path0.len() as int] == node.id@);
                        assert forall|k: Seq<char>| ids_of(path0).contains(k) implies ext.contains(k) by {
                            let q = choose|q: int| 0 <= q < ids_of(path0).len() && ids_of(path0)[q] == k;
                            assert(ext[q] == k);
                        }
                        lemma_step_trans(pre, mid, *self, *graph, root, tail_of(mid, *self, *graph, root));
                        lemma_tail(pre, *self, *graph, root, tail_of(mid, *self, *graph, root));
                    }
                    match res {
                        Err(e) => {
                            path.pop();
                            assert(path@ =~= path0);
                            return Err(e);
                        },
                        Ok(_) => {
                            assert(self.cache().contains_key(node.dependencies@[i as int]@));
                            assert forall|j: int| 0 <= j <= i implies #[trigger] self.cache().contains_key(
                                node.dependencies@[j]@,
                            ) by {
                                if j < i {
                                    assert(mid.cache().contains_key(node.dependencies@[j]@));
                                }
                            }
                            assert(tail_of(mid, *self, *graph, root) =~= Seq::<Logged>::empty());
                        },
                    }
                },
            }
            i += 1;
        }
        proof {
            assert(ids_of(path@).last() == node.id@);
            assert(reaches(*graph, root, node.id@));
        }
        path.pop();
        assert(path@ =~= path0);
        let ghost end = *self;
        let r = self.dispatch(node, handler);
        match r {
            Err(e) => {
                proof {
                    let tail = self.calls().subrange(end.calls().len() as int, self.calls().len() as int);
                    assert(new_ids(end, *self) =~= Seq::empty());
                    assert(self.calls() =~= end.calls() + calls_of(new_ids(end, *self), *graph, root, self.cache()) + tail);
                    lemma_step_trans(pre, end, *self, *graph, root, tail);
                    lemma_tail(pre, *self, *graph, root, tail);
                    assert(err_node(e) == node.id@);
                }
                Err(e)
            },
            Ok(v) => {
                let ghost before = *self;
                results_insert(&mut self.results, node.id.clone(), v.clone());
                self.completed = Ghost(self.completed@.push(node.id@));
                proof {
                    assert(!before.completed().contains(node.id@));
                    assert(self.cache() == before.cache().insert(node.id@, v));
                    assert(self.completed() == before.completed().push(node.id@));
                    assert(self.wf()) by {
                        assert forall|k: Seq<char>| #[trigger] self.cache().contains_key(k) <==> self.completed().contains(k) by {
                            if self.completed().contains(k) && k != node.id@ {
                                let q = choose|q: int| 0 <= q < self.completed().len() && self.completed()[q] == k;
                                assert(before.completed()[q] == k);
                            }
                            if before.completed().contains(k) {
                                let q = choose|q: int| 0 <= q < before.completed().len() && before.completed()[q] == k;
                                assert(self.completed()[q] == k);
                            }
                            assert(self.completed()[before.completed().len() as int] == node.id@);
                        }
                    }
                    assert(end.cache().submap_of(self.cache()));
                    let p = end.completed().len() as int;
                    assert(self.completed()[p] == node.id@);
                    assert forall|d: int| 0 <= d < node.dependencies@.len() implies #[trigger] done_before(
                        self.completed(),
                        p,
                        node.dependencies@[d]@,
                    ) by {
                        assert(end.cache().contains_key(node.dependencies@[d]@));
                        assert(end.completed().contains(node.dependencies@[d]@));
                        let q = choose|q: int| 0 <= q < end.completed().len() && end.completed()[q] == node.dependencies@[d]@;
                        assert(self.completed()[q] == end.completed()[q]);
                    }
                    let nop = node.operation;
                    match nop {
                        Operation::Print(op) => {
                            assert(end.cache().contains_key(op.value_ref@));
                        },
                        Operation::Return(op) => {
                            assert(end.cache().contains_key(op.value_ref@));
                        },
                        _ => {},
                    }
                    assert(completed_well(*self, p, *graph, root));
                    assert forall|q: int| 0 <= q < end.completed().len() implies #[trigger] self.completed()[q] == end.completed()[q] by {}
                    let ids1 = new_ids(end, *self);
                    assert(ids1 =~= seq![node.id@]);
                    assert(ids1.drop_last() =~= Seq::<Seq<char>>::empty());
                    assert(ids1.last() == node.id@);
                    assert(calls_of(ids1.drop_last(), *graph, root, self.cache()) == Seq::<Logged>::empty());
                    assert(self.cache()[node.id@] == v);
                    assert(node_of(*graph, root, node.id@) == *node);
                    assert(calls_of(ids1, *graph, root, self.cache()) =~= expected_calls(*node, v));
                    assert(self.calls() =~= end.calls() + calls_of(ids1, *graph, root, self.cache()) + Seq::<Logged>::empty());
                    assert(run_step(end, *self, *graph, root, Seq::empty()));
                    lemma_step_trans(pre, end, *self, *graph, root, Seq::empty());
                    lemma_tail(pre, *self, *graph, root, Seq::empty());
                }
                Ok(v)
            },
        }
    }
}

} // verus!
