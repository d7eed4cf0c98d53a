use special::ids::{IdMap, IdSet};
use special::language_packs::typescript::analyze::{
    ToolTraceEdge, file_graph_with_isolated_sources, filter_tool_call_edges, resolve_cached_graph_facts,
    undirected_file_graph,
};

fn ids(values: &[&str]) -> IdSet {
    IdSet::from_vec(values.iter().map(|value| value.to_string()).collect())
}

fn listed(set: &IdSet) -> Vec<String> {
    set.ids().clone()
}

#[test]
fn scope_file_graph_keeps_isolated_typescript_candidate_files() {
    let mut directed = IdMap::new();
    directed.insert("src/linked.ts".to_string(), ids(&["src/other.ts"]));
    let graph = file_graph_with_isolated_sources(
        &vec!["src/linked.ts".to_string(), "src/isolated.ts".to_string()],
        directed,
    );

    assert!(graph.get("src/isolated.ts").is_some());
    assert_eq!(graph.get("src/isolated.ts"), Some(&IdSet::new()));
    assert_eq!(listed(graph.get("src/linked.ts").unwrap()), vec!["src/other.ts"]);
}

#[test]
fn invalid_cached_graph_facts_do_not_fall_back_to_live_typescript_traceability() {
    let decoded = serde_json::from_slice::<serde_json::Value>(b"not json").map_err(|error| error.to_string());
    let error = resolve_cached_graph_facts(Some(decoded)).expect_err("invalid graph facts should fail explicitly");

    assert!(error.contains("invalid cached TypeScript traceability graph facts"));
}

#[test]
fn cached_graph_facts_are_used_or_traced_live() {
    assert_eq!(resolve_cached_graph_facts(Some(Ok::<u8, String>(3))), Ok(Some(3)));
    assert_eq!(resolve_cached_graph_facts::<u8>(None), Ok(None));
}

#[test]
fn undirected_file_graph_links_both_ways() {
    let mut directed = IdMap::new();
    directed.insert("a.ts".to_string(), ids(&["b.ts", "c.ts"]));
    directed.insert("lonely.ts".to_string(), IdSet::new());
    let graph = undirected_file_graph(&directed);
    assert_eq!(listed(graph.get("a.ts").unwrap()), vec!["b.ts", "c.ts"]);
    assert_eq!(listed(graph.get("b.ts").unwrap()), vec!["a.ts"]);
    assert!(graph.get("lonely.ts").is_none());
}

#[test]
fn tool_edges_between_known_callables_are_kept() {
    let edges = vec![
        ToolTraceEdge { caller: "a".to_string(), callee: "b".to_string() },
        ToolTraceEdge { caller: "a".to_string(), callee: "zz".to_string() },
        ToolTraceEdge { caller: "c".to_string(), callee: "a".to_string() },
    ];
    let graph = filter_tool_call_edges(&edges, &ids(&["a", "b", "c"]));
    assert_eq!(listed(graph.get("a").unwrap()), vec!["b"]);
    assert_eq!(listed(graph.get("c").unwrap()), vec!["a"]);
    assert!(graph.get("b").is_none());
}
