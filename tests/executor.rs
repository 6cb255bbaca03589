use nature::graph_executor::{
    text_result, transform_result, EffectHandler, ExecError, ExecutionResult, GraphExecutor,
    TransformOutput, NATIVE_PLACEHOLDER,
};
use nature::ir::{
    DataTransformOp, FileIOOp, IRGraph, IRNode, Operation, PrintOp, PythonCodeOp, ReturnOp,
    RustCodeOp, SQLQueryOp,
};
use std::collections::HashMap;

/// Records every call; code and queries answer with their own text, or with
/// a set answer.
#[derive(Default)]
struct Recorder {
    calls: Vec<String>,
    emitted: Vec<String>,
    answers: HashMap<String, String>,
    failing: Vec<String>,
}

impl Recorder {
    fn answer(&mut self, key: &str) -> Result<String, String> {
        self.calls.push(key.to_string());
        if self.failing.iter().any(|f| f == key) {
            return Err(format!("failed: {}", key));
        }
        Ok(self.answers.get(key).cloned().unwrap_or_else(|| key.to_string()))
    }

    fn count(&self, key: &str) -> usize {
        self.calls.iter().filter(|c| c.as_str() == key).count()
    }
}

impl EffectHandler for Recorder {
    fn run_query(&mut self, query: &str, _params: &Option<Vec<String>>) -> Result<String, String> {
        self.answer(query)
    }

    fn transform(
        &mut self,
        transform_type: &str,
        args: &serde_json::Value,
    ) -> Result<TransformOutput, String> {
        self.calls.push(transform_type.to_string());
        if transform_type == "structured" {
            Ok(TransformOutput::Structured(args.clone()))
        } else {
            Ok(TransformOutput::Text(format!("{}:{}", transform_type, args)))
        }
    }

    fn read_file(&mut self, path: &str, _format: &Option<String>) -> Result<String, String> {
        self.answer(&format!("read {}", path))
    }

    fn write_file(&mut self, path: &str, _format: &Option<String>) -> Result<String, String> {
        self.answer(&format!("write {}", path))
    }

    fn run_code(&mut self, code: &str, _use_sandbox: bool) -> Result<String, String> {
        self.answer(code)
    }

    fn emit(&mut self, text: &str) {
        self.emitted.push(text.to_string());
    }
}

fn node(id: &str, operation: Operation, deps: &[&str]) -> IRNode {
    IRNode {
        id: id.to_string(),
        operation,
        dependencies: deps.iter().map(|d| d.to_string()).collect(),
        metadata: HashMap::new(),
    }
}

fn code(text: &str) -> Operation {
    Operation::PythonCode(PythonCodeOp { code: text.to_string(), use_sandbox: true })
}

fn graph(nodes: Vec<IRNode>) -> IRGraph {
    let mut g = IRGraph::new();
    for n in nodes {
        g.add_node(n);
    }
    g
}

fn text(r: &ExecutionResult) -> String {
    r.to_string()
}

#[test]
fn node_reached_twice_runs_once() {
    // d depends on b and c, which both depend on a.
    let mut g = graph(vec![
        node("d", code("D"), &["b", "c"]),
        node("a", code("A"), &[]),
        node("b", code("B"), &["a"]),
        node("c", code("C"), &["a"]),
    ]);
    g.entry_point = "d".to_string();
    let mut exec = GraphExecutor::new();
    let mut h = Recorder::default();
    let r = exec.execute_graph(&g, &mut h).unwrap();
    assert_eq!(text(&r), "D");
    assert_eq!(h.count("A"), 1);
    assert_eq!(h.calls, vec!["A", "B", "C", "D"]);
    // A second run reuses every cached result.
    let again = exec.execute_graph(&g, &mut h).unwrap();
    assert_eq!(again, r);
    assert_eq!(h.calls.len(), 4);
}

#[test]
fn chain_runs_in_dependency_order() {
    let mut g = graph(vec![
        node("A", code("A"), &[]),
        node("B", code("B"), &["A"]),
        node("C", code("C"), &["B"]),
    ]);
    g.entry_point = "C".to_string();
    let mut exec = GraphExecutor::new();
    let mut h = Recorder::default();
    exec.execute_graph(&g, &mut h).unwrap();
    assert_eq!(h.calls, vec!["A", "B", "C"]);
}

#[test]
fn missing_dependency_names_the_id() {
    let mut g = graph(vec![
        node("top", code("TOP"), &["mid"]),
        node("mid", code("MID"), &["ghost"]),
    ]);
    g.entry_point = "top".to_string();
    let mut exec = GraphExecutor::new();
    let mut h = Recorder::default();
    let e = exec.execute_graph(&g, &mut h).unwrap_err();
    assert_eq!(e, ExecError::GraphStructure { missing_id: "ghost".to_string() });
    assert!(h.calls.is_empty());
    assert!(exec.get_result("top").is_none());
    assert!(exec.get_result("mid").is_none());
}

#[test]
fn missing_entry_point_is_a_structure_error() {
    let mut g = graph(vec![node("a", code("A"), &[])]);
    g.entry_point = "nowhere".to_string();
    let mut exec = GraphExecutor::new();
    let mut h = Recorder::default();
    let e = exec.execute_graph(&g, &mut h).unwrap_err();
    assert_eq!(e, ExecError::GraphStructure { missing_id: "nowhere".to_string() });
    assert!(h.calls.is_empty());
}

#[test]
fn print_passes_value_through() {
    let mut g = graph(vec![
        node("n1", code("five"), &[]),
        node("n2", Operation::Print(PrintOp { value_ref: "n1".to_string() }), &["n1"]),
    ]);
    g.entry_point = "n2".to_string();
    let mut exec = GraphExecutor::new();
    let mut h = Recorder::default();
    h.answers.insert("five".to_string(), "5".to_string());
    let r = exec.execute_graph(&g, &mut h).unwrap();
    assert_eq!(r, ExecutionResult::String("5".to_string()));
    assert_eq!(h.emitted, vec!["5"]);
    assert_eq!(exec.get_result("n2"), exec.get_result("n1"));
}

#[test]
fn unsupported_file_operation_is_refused() {
    let g = graph(vec![node(
        "f",
        Operation::FileIO(FileIOOp {
            operation_type: "delete".to_string(),
            path: "x".to_string(),
            format: None,
        }),
        &[],
    )]);
    let mut exec = GraphExecutor::new();
    let mut h = Recorder::default();
    let e = exec.execute_graph(&g, &mut h).unwrap_err();
    assert_eq!(
        e,
        ExecError::UnsupportedOperation {
            node_id: "f".to_string(),
            operation_type: "delete".to_string()
        }
    );
    assert!(h.calls.is_empty());
}

#[test]
fn file_read_and_write_reach_the_collaborator() {
    let mut g = graph(vec![
        node(
            "w",
            Operation::FileIO(FileIOOp {
                operation_type: "write".to_string(),
                path: "out.txt".to_string(),
                format: None,
            }),
            &[],
        ),
        node(
            "r",
            Operation::FileIO(FileIOOp {
                operation_type: "read".to_string(),
                path: "in.csv".to_string(),
                format: Some("csv".to_string()),
            }),
            &["w"],
        ),
    ]);
    g.entry_point = "r".to_string();
    let mut exec = GraphExecutor::new();
    let mut h = Recorder::default();
    let r = exec.execute_graph(&g, &mut h).unwrap();
    assert_eq!(r, ExecutionResult::String("read in.csv".to_string()));
    assert_eq!(h.calls, vec!["write out.txt", "read in.csv"]);
}

#[test]
fn cleared_cache_runs_every_node_again() {
    let mut g = graph(vec![
        node("a", code("A"), &[]),
        node("b", code("B"), &["a"]),
    ]);
    g.entry_point = "b".to_string();
    let mut exec = GraphExecutor::new();
    let mut h = Recorder::default();
    exec.execute_graph(&g, &mut h).unwrap();
    assert_eq!(h.calls.len(), 2);
    exec.clear_results();
    assert!(exec.get_result("a").is_none());
    exec.execute_graph(&g, &mut h).unwrap();
    assert_eq!(h.count("A"), 2);
    assert_eq!(h.count("B"), 2);
}

#[test]
fn cycle_is_detected() {
    let mut g = graph(vec![
        node("a", code("A"), &["b"]),
        node("b", code("B"), &["a"]),
    ]);
    g.entry_point = "a".to_string();
    let mut exec = GraphExecutor::new();
    let mut h = Recorder::default();
    let e = exec.execute_graph(&g, &mut h).unwrap_err();
    assert_eq!(e, ExecError::GraphCycle { node_id: "a".to_string() });
    assert!(h.calls.is_empty());
}

#[test]
fn self_dependency_is_a_cycle() {
    let g = graph(vec![node("a", code("A"), &["a"])]);
    let mut exec = GraphExecutor::new();
    let mut h = Recorder::default();
    let e = exec.execute_graph(&g, &mut h).unwrap_err();
    assert_eq!(e, ExecError::GraphCycle { node_id: "a".to_string() });
}

#[test]
fn return_passes_value_through_without_output() {
    let mut g = graph(vec![
        node("q", Operation::SQLQuery(SQLQueryOp { query: "SELECT 1".to_string(), params: None }), &[]),
        node("ret", Operation::Return(ReturnOp { value_ref: "q".to_string() }), &["q"]),
    ]);
    g.entry_point = "ret".to_string();
    let mut exec = GraphExecutor::new();
    let mut h = Recorder::default();
    h.answers.insert("SELECT 1".to_string(), "[(1,)]".to_string());
    let r = exec.execute_graph(&g, &mut h).unwrap();
    assert_eq!(r, ExecutionResult::String("[(1,)]".to_string()));
    assert!(h.emitted.is_empty());
}

#[test]
fn reference_to_uncached_node_fails() {
    let g = graph(vec![
        node("ret", Operation::Return(ReturnOp { value_ref: "later".to_string() }), &[]),
        node("later", code("L"), &[]),
    ]);
    let mut exec = GraphExecutor::new();
    let mut h = Recorder::default();
    let e = exec.execute_graph(&g, &mut h).unwrap_err();
    assert_eq!(
        e,
        ExecError::Reference { node_id: "ret".to_string(), value_ref: "later".to_string() }
    );
}

#[test]
fn native_code_yields_placeholder() {
    let g = graph(vec![node("n", Operation::RustCode(RustCodeOp { code: "fn main() {}".to_string() }), &[])]);
    let mut exec = GraphExecutor::new();
    let mut h = Recorder::default();
    let r = exec.execute_graph(&g, &mut h).unwrap();
    assert_eq!(r, ExecutionResult::String(NATIVE_PLACEHOLDER.to_string()));
    assert_eq!(text(&r), "Rust code execution placeholder");
    assert!(h.calls.is_empty());
}

#[test]
fn collaborator_failure_names_the_node() {
    let g = graph(vec![node("boom", code("BOOM"), &[])]);
    let mut exec = GraphExecutor::new();
    let mut h = Recorder::default();
    h.failing.push("BOOM".to_string());
    let e = exec.execute_graph(&g, &mut h).unwrap_err();
    assert_eq!(
        e,
        ExecError::EffectHandler { node_id: "boom".to_string(), message: "failed: BOOM".to_string() }
    );
    assert!(exec.get_result("boom").is_none());
}

#[test]
fn earlier_results_stay_after_a_failure() {
    let mut g = graph(vec![
        node("ok", code("OK"), &[]),
        node("bad", code("BAD"), &["ok"]),
    ]);
    g.entry_point = "bad".to_string();
    let mut exec = GraphExecutor::new();
    let mut h = Recorder::default();
    h.failing.push("BAD".to_string());
    assert!(exec.execute_graph(&g, &mut h).is_err());
    assert_eq!(exec.get_result("ok"), Some(ExecutionResult::String("OK".to_string())));
}

#[test]
fn transform_results_are_text_or_structured() {
    let args: serde_json::Value = serde_json::from_str("{\"col\":\"x\"}").unwrap();
    let mut g = graph(vec![
        node(
            "t",
            Operation::DataTransform(DataTransformOp {
                transform_type: "filter".to_string(),
                args: args.clone(),
            }),
            &[],
        ),
        node(
            "s",
            Operation::DataTransform(DataTransformOp {
                transform_type: "structured".to_string(),
                args: args.clone(),
            }),
            &["t"],
        ),
    ]);
    g.entry_point = "s".to_string();
    let mut exec = GraphExecutor::new();
    let mut h = Recorder::default();
    let r = exec.execute_graph(&g, &mut h).unwrap();
    assert_eq!(r, ExecutionResult::Object(args));
    assert_eq!(
        exec.get_result("t"),
        Some(ExecutionResult::String("filter:{\"col\":\"x\"}".to_string()))
    );
}

#[test]
fn execute_node_runs_a_node_outside_the_graph() {
    let g = graph(vec![node("a", code("A"), &[])]);
    let extra = node("x", Operation::Print(PrintOp { value_ref: "a".to_string() }), &["a"]);
    let mut exec = GraphExecutor::new();
    let mut h = Recorder::default();
    let r = exec.execute_node(&extra, &g, &mut h).unwrap();
    assert_eq!(r, ExecutionResult::String("A".to_string()));
    assert_eq!(h.emitted, vec!["A"]);
    assert_eq!(exec.get_result("x"), Some(r));
}

#[test]
fn results_render_as_text() {
    assert_eq!(ExecutionResult::String("hi".to_string()).to_string(), "hi");
    assert_eq!(ExecutionResult::Boolean(true).to_string(), "true");
    assert_eq!(ExecutionResult::Boolean(false).to_string(), "false");
    assert_eq!(ExecutionResult::Null.to_string(), "null");
    assert_eq!(ExecutionResult::Number(serde_json::Number::from(42)).to_string(), "42");
    let v: serde_json::Value = serde_json::from_str("{ \"a\": [1, true] }").unwrap();
    assert_eq!(ExecutionResult::Object(v).to_string(), "{\"a\":[1,true]}");
}

#[test]
fn first_node_becomes_entry_point() {
    let mut g = IRGraph::new();
    assert!(g.nodes.is_empty());
    assert_eq!(g.entry_point, "");
    g.add_node(node("first", code("F"), &[]));
    g.add_node(node("second", code("S"), &[]));
    assert_eq!(g.entry_point, "first");
    assert_eq!(g.nodes.len(), 2);
    assert_eq!(g.find_node(&"second".to_string()), Some(1));
    assert_eq!(g.find_node(&"third".to_string()), None);
}

#[test]
fn find_node_takes_the_first_match() {
    let g = graph(vec![node("a", code("one"), &[]), node("a", code("two"), &[])]);
    assert_eq!(g.find_node(&"a".to_string()), Some(0));
}

#[test]
fn collaborator_answers_map_to_results() {
    let id = "n".to_string();
    assert_eq!(
        text_result(&id, Ok("rows".to_string())),
        Ok(ExecutionResult::String("rows".to_string()))
    );
    assert_eq!(
        text_result(&id, Err("down".to_string())),
        Err(ExecError::EffectHandler { node_id: "n".to_string(), message: "down".to_string() })
    );
    let v: serde_json::Value = serde_json::from_str("[1,2]").unwrap();
    assert_eq!(
        transform_result(&id, Ok(TransformOutput::Structured(v.clone()))),
        Ok(ExecutionResult::Object(v))
    );
    assert_eq!(
        transform_result(&id, Ok(TransformOutput::Text("t".to_string()))),
        Ok(ExecutionResult::String("t".to_string()))
    );
}

#[test]
fn missing_dependency_after_resolved_ones_is_named() {
    let mut g = graph(vec![
        node("a", code("A"), &[]),
        node("top", code("TOP"), &["a", "ghost", "b"]),
        node("b", code("B"), &[]),
    ]);
    g.entry_point = "top".to_string();
    let mut exec = GraphExecutor::new();
    let mut h = Recorder::default();
    let e = exec.execute_graph(&g, &mut h).unwrap_err();
    assert_eq!(e, ExecError::GraphStructure { missing_id: "ghost".to_string() });
    assert_eq!(h.calls, vec!["A"]);
    assert!(exec.get_result("top").is_none());
}
