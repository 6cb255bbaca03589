//! Properties of the executor that relate several calls or hold of every run.
use crate::graph_executor::{
    calls_of,
    completed_well,
    deps_ready,
    dispatch_err,
    dispatched,
    done_before,
    expected_calls,
    first_with_id,
    graph_run,
    new_ids,
    node_of,
    node_run,
    ok_value,
    run_step,
    Call,
    ExecError,
    ExecutionResult,
    GraphExecutor,
    Logged,
};
use crate::ir::{IRGraph, IRNode};
use vstd::prelude::*;

verus! {

/// Memoization: while the cache lives, a node whose result is cached is not
/// run again, and no node runs twice, however many paths reach it; the log
/// grows by the calls of the nodes completed, each once.
pub proof fn lemma_memoized(
    pre: GraphExecutor,
    post: GraphExecutor,
    graph: IRGraph,
    root: IRNode,
    tail: Seq<Logged>,
)
    requires
        pre.wf(),
        run_step(pre, post, graph, root, tail),
    ensures
        post.completed().no_duplicates(),
        forall|p: int|
            pre.completed().len() <= p < post.completed().len() ==> !pre.cache().contains_key(
                #[trigger] post.completed()[p],
            ),
        post.calls() == pre.calls() + calls_of(new_ids(pre, post), graph, root, post.cache()) + tail,
{
    assert forall|p: int|
        pre.completed().len() <= p < post.completed().len() implies !pre.cache().contains_key(
        #[trigger] post.completed()[p],
    ) by {
        let k = post.completed()[p];
        if pre.cache().contains_key(k) {
            assert(pre.completed().contains(k));
            let q = choose|q: int| 0 <= q < pre.completed().len() && pre.completed()[q] == k;
            assert(post.completed()[q] == pre.completed()[q]);
        }
    }
}

/// A node whose result is cached yields it, and makes no call at all.
pub proof fn lemma_cached_node_makes_no_call(
    pre: GraphExecutor,
    post: GraphExecutor,
    node: IRNode,
    graph: IRGraph,
    root: IRNode,
    r: Result<ExecutionResult, ExecError>,
)
    requires
        node_run(pre, post, node, graph, root, r),
        pre.cache().contains_key(node.id@),
    ensures
        r == Ok::<ExecutionResult, ExecError>(pre.cache()[node.id@]),
        post.calls() == pre.calls(),
        post.cache() == pre.cache(),
{
}

/// Dependency order: each node that a run completes does so after every one
/// of its dependencies has completed.
pub proof fn lemma_dependencies_first(
    pre: GraphExecutor,
    post: GraphExecutor,
    graph: IRGraph,
    root: IRNode,
    tail: Seq<Logged>,
    p: int,
)
    requires
        run_step(pre, post, graph, root, tail),
        pre.completed().len() <= p < post.completed().len(),
    ensures
        forall|d: int|
            0 <= d < node_of(graph, root, post.completed()[p]).dependencies@.len()
                ==> #[trigger] done_before(
                post.completed(),
                p,
                node_of(graph, root, post.completed()[p]).dependencies@[d]@,
            ),
{
    assert(completed_well(post, p, graph, root));
}

/// Missing dependency: when the entry node's first dependency names no node
/// of the graph, the run fails with a structure error naming that id, and
/// nothing changes: no call is made and no result is cached.
pub proof fn lemma_missing_dependency(
    pre: GraphExecutor,
    post: GraphExecutor,
    graph: IRGraph,
    r: Result<ExecutionResult, ExecError>,
    i: int,
)
    requires
        graph_run(pre, post, graph, r),
        first_with_id(graph, i, graph.entry_point@),
        !pre.cache().contains_key(graph.entry_point@),
        graph.nodes@[i].dependencies@.len() > 0,
        !graph.has_node(graph.nodes@[i].dependencies@[0]@),
    ensures
        match r {
            Err(ExecError::GraphStructure { missing_id }) => missing_id@
                == graph.nodes@[i].dependencies@[0]@,
            _ => false,
        },
        post == pre,
{
    assert(node_run(pre, post, graph.nodes@[i], graph, graph.nodes@[i], r));
}

/// Pass-through: a `Print` node that runs returns, and caches, the very
/// result of the node it refers to, and its last act is to emit it.
pub proof fn lemma_print_passes_through(
    pre: GraphExecutor,
    post: GraphExecutor,
    node: IRNode,
    graph: IRGraph,
    r: Result<ExecutionResult, ExecError>,
)
    requires
        pre.wf(),
        node_run(pre, post, node, graph, node, r),
        node.operation is Print,
        !pre.cache().contains_key(node.id@),
        r is Ok,
    ensures
        post.cache().contains_key(node.operation->Print_0.value_ref@),
        r->Ok_0 == post.cache()[node.operation->Print_0.value_ref@],
        post.calls().len() > 0,
        post.calls().last() == (node.id@, Call::Emit { value: r->Ok_0 }),
{
    let v = r->Ok_0;
    let n = post.completed().len() - 1;
    if n < pre.completed().len() {
        assert(post.completed()[n] == pre.completed()[n]);
        assert(pre.completed().contains(node.id@));
    }
    assert(completed_well(post, n, graph, node));
    assert(node_of(graph, node, node.id@) == node);
    assert(ok_value(node, post.cache(), v));
    let ids = new_ids(pre, post);
    assert(ids.last() == node.id@);
    let made = calls_of(ids, graph, node, post.cache());
    assert(made == calls_of(ids.drop_last(), graph, node, post.cache()) + expected_calls(node, v));
    assert(expected_calls(node, v) == seq![(node.id@, Call::Emit { value: v })]);
    assert(post.calls() == pre.calls() + made + Seq::<Logged>::empty());
    assert(post.calls().last() == made.last());
}

/// Unsupported file operation: a `FileIO` node whose operation type is
/// neither "read" nor "write", and whose dependencies are ready, fails with
/// an unsupported-operation error without any call and without caching.
pub proof fn lemma_unsupported_file_operation(
    pre: GraphExecutor,
    post: GraphExecutor,
    node: IRNode,
    graph: IRGraph,
    root: IRNode,
    r: Result<ExecutionResult, ExecError>,
)
    requires
        node_run(pre, post, node, graph, root, r),
        node.operation is FileIO,
        node.operation->FileIO_0.operation_type@ != "read"@,
        node.operation->FileIO_0.operation_type@ != "write"@,
        !pre.cache().contains_key(node.id@),
        deps_ready(node, graph, pre.cache()),
    ensures
        r == Err::<ExecutionResult, ExecError>(
            ExecError::UnsupportedOperation {
                node_id: node.id,
                operation_type: node.operation->FileIO_0.operation_type,
            },
        ),
        post.calls() == pre.calls(),
        post.cache() == pre.cache(),
{
    assert(dispatched(node, pre.cache(), r, pre.calls(), post.calls()));
    let tail = post.calls().subrange(pre.calls().len() as int, post.calls().len() as int);
    assert(dispatch_err(node, pre.cache(), r->Err_0, tail));
    assert(post.calls() =~= pre.calls());
}

/// Cache clears: once the cache is emptied, a successful run completes the
/// entry node again, every result cached after it was computed by it, and
/// the log grows by the calls of all of them.
pub proof fn lemma_cleared_run_recomputes(
    pre: GraphExecutor,
    post: GraphExecutor,
    graph: IRGraph,
    r: Result<ExecutionResult, ExecError>,
    i: int,
)
    requires
        pre.wf(),
        pre.cache() =~= Map::empty(),
        pre.completed() =~= Seq::empty(),
        graph_run(pre, post, graph, r),
        first_with_id(graph, i, graph.entry_point@),
        r is Ok,
    ensures
        post.completed().contains(graph.entry_point@),
        forall|k: Seq<char>| #[trigger] post.cache().contains_key(k) ==> post.completed().contains(k),
        post.calls() == pre.calls() + calls_of(post.completed(), graph, graph.nodes@[i], post.cache()),
{
    assert(node_run(pre, post, graph.nodes@[i], graph, graph.nodes@[i], r));
    assert(post.cache().contains_key(graph.entry_point@));
    assert(new_ids(pre, post) =~= post.completed());
    assert(post.calls() =~= pre.calls() + calls_of(post.completed(), graph, graph.nodes@[i], post.cache()));
}

} // verus!
