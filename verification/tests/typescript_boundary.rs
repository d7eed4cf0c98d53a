use special::ids::{IdMap, IdSet};
use special::language_packs::typescript::analyze::narrow_traceability_inputs;
use special::language_packs::typescript::boundary::{
    derive_projected_traceability_boundary, derive_scoped_traceability_boundary, expand_file_closure,
};
use special::model::analysis::ModuleItemKind;
use special::modules::analyze::traceability_core::evidence::{TraceabilityInputs, TraceabilityOwnedItem};
use special::modules::analyze::traceability_core::graph::{
    ProjectedTraceabilityContract, ProjectedTraceabilityReference, ReverseClosureReference, TraceGraph,
    TraceabilityItemSupport,
};

fn strings(values: &[&str]) -> Vec<String> {
    values.iter().map(|value| value.to_string()).collect()
}

fn ids(values: &[&str]) -> IdSet {
    IdSet::from_vec(strings(values))
}

fn links(entries: &[(&str, &[&str])]) -> IdMap<IdSet> {
    let mut map = IdMap::new();
    for (from, to) in entries {
        map.insert(from.to_string(), ids(to));
    }
    map
}

fn item(stable_id: &str, path: &str) -> TraceabilityOwnedItem {
    TraceabilityOwnedItem {
        stable_id: stable_id.to_string(),
        kind: ModuleItemKind::Function,
        name: stable_id.to_lowercase(),
        path: path.to_string(),
        public: true,
        review_surface: false,
        test_file: false,
        module_ids: Vec::new(),
        mediated_reason: None,
    }
}

fn candidates() -> Vec<String> {
    strings(&["src/a.ts", "src/b.ts", "src/c.ts", "src/d.ts"])
}

fn adjacency() -> IdMap<IdSet> {
    links(&[
        ("src/a.ts", &["src/b.ts"]),
        ("src/b.ts", &["src/a.ts", "src/c.ts", "src/x.ts"]),
        ("src/e.ts", &["src/c.ts"]),
    ])
}

fn inputs() -> TraceabilityInputs {
    TraceabilityInputs {
        repo_items: vec![item("A1", "src/a.ts"), item("B1", "src/b.ts"), item("C1", "src/c.ts")],
        context_items: Vec::new(),
        graph: TraceGraph {
            edges: links(&[("A1", &["B1", "C1"]), ("B1", &["C1"]), ("C1", &[])]),
            root_supports: {
                let mut supports = IdMap::new();
                supports.insert("B1".to_string(), TraceabilityItemSupport::kernel_placeholder("B1"));
                supports.insert("C1".to_string(), TraceabilityItemSupport::kernel_placeholder("C1"));
                supports
            },
        },
    }
}

fn kernel_reference() -> ProjectedTraceabilityReference {
    ProjectedTraceabilityReference {
        contract: ProjectedTraceabilityContract {
            projected_item_ids: ids(&["A1"]),
            preserved_reverse_closure_target_ids: ids(&["A1"]),
        },
        exact_reverse_closure: ReverseClosureReference {
            target_ids: ids(&["A1"]),
            node_ids: ids(&["C1"]),
            internal_edges: IdMap::new(),
        },
    }
}

#[test]
fn file_closure_follows_candidate_links_from_seeds() {
    assert_eq!(
        expand_file_closure(&candidates(), &strings(&["src/a.ts"]), &adjacency()),
        strings(&["src/a.ts", "src/b.ts", "src/c.ts"])
    );
    assert_eq!(expand_file_closure(&candidates(), &strings(&["src/d.ts"]), &adjacency()), strings(&["src/d.ts"]));
    assert_eq!(expand_file_closure(&candidates(), &strings(&["src/e.ts"]), &adjacency()), strings(&["src/c.ts"]));
    assert!(expand_file_closure(&candidates(), &Vec::new(), &adjacency()).is_empty());
}

#[test]
fn boundaries_project_scoped_files() {
    let scoped = derive_scoped_traceability_boundary(&candidates(), &strings(&["src/c.ts"]), &adjacency());
    assert_eq!(scoped.projected_files.ids(), &strings(&["src/c.ts"]));
    assert_eq!(scoped.closure_files, strings(&["src/c.ts"]));
    let projected = derive_projected_traceability_boundary(&candidates(), &strings(&["src/c.ts"]));
    assert_eq!(projected.closure_files, candidates());
    let working = projected.working_contract();
    assert!(working.projected_item_ids.is_empty());
    assert_eq!(working.preserved_file_closure, candidates());
}

#[test]
fn exact_contract_keeps_projected_items_and_their_closure() {
    let boundary = derive_projected_traceability_boundary(&candidates(), &strings(&["src/a.ts"]));
    let inputs = inputs();
    assert_eq!(boundary.projected_item_ids(&candidates(), &inputs), strings(&["A1"]));
    let reference = boundary.reference(&candidates(), &inputs, kernel_reference());
    let contract = &reference.contract;
    assert_eq!(contract.projected_item_ids.ids(), &strings(&["A1"]));
    assert_eq!(contract.preserved_item_ids.ids(), &strings(&["A1", "C1"]));
    assert_eq!(contract.preserved_reverse_closure_target_ids.ids(), &strings(&["A1"]));
    assert_eq!(contract.preserved_file_closure, strings(&["src/a.ts", "src/c.ts"]));
    let projected = reference.projected_reference();
    assert_eq!(projected.contract.projected_item_ids.ids(), &strings(&["A1"]));
    assert_eq!(projected.exact_reverse_closure.node_ids.ids(), &strings(&["C1"]));
    let exact = boundary.exact_contract(&candidates(), &inputs, kernel_reference());
    assert_eq!(exact.preserved_file_closure, strings(&["src/a.ts", "src/c.ts"]));
}

#[test]
fn narrowing_keeps_only_preserved_items_edges_and_supports() {
    let boundary = derive_projected_traceability_boundary(&candidates(), &strings(&["src/a.ts"]));
    let full = inputs();
    let reference = boundary.reference(&candidates(), &full, kernel_reference());
    let narrowed = narrow_traceability_inputs(&reference, inputs());
    let repo: Vec<_> = narrowed.repo_items.iter().map(|item| item.stable_id.clone()).collect();
    assert_eq!(repo, strings(&["A1"]));
    assert!(narrowed.context_items.is_empty());
    let edges: Vec<_> = narrowed
        .graph
        .edges
        .entries()
        .iter()
        .map(|(caller, callees)| (caller.clone(), callees.ids().clone()))
        .collect();
    assert_eq!(edges, vec![("A1".to_string(), strings(&["C1"])), ("C1".to_string(), Vec::new())]);
    let supports: Vec<_> = narrowed.graph.root_supports.entries().iter().map(|(id, _)| id.clone()).collect();
    assert_eq!(supports, strings(&["C1"]));
}

use special::language_packs::typescript::analyze::{build_parser_call_edges, collect_callable_items};
use special::source_items::{CallSyntaxKind, SourceCall, SourceItem, SourceItemKind, SourceSpan};

fn parsed(path: &str, name: &str, calls: &[&str]) -> SourceItem {
    SourceItem {
        source_path: path.to_string(),
        stable_id: format!("{path}:{name}"),
        name: name.to_string(),
        shape_fingerprint: String::new(),
        normalized_fingerprints: Vec::new(),
        shape_node_count: 0,
        kind: SourceItemKind::Function,
        span: SourceSpan { start_line: 1, end_line: 1, start_column: 0, end_column: 0, start_byte: 0, end_byte: 0 },
        public: false,
        root_visible: false,
        is_test: false,
        calls: calls
            .iter()
            .map(|call| SourceCall { name: call.to_string(), qualifier: None, syntax: CallSyntaxKind::Identifier })
            .collect(),
        invocations: Vec::new(),
    }
}

#[test]
fn parser_call_edges_resolve_same_file_then_unique_global_names() {
    let graphs = vec![
        ("src/a.ts".to_string(), vec![parsed("src/a.ts", "f", &["g", "h", "k"]), parsed("src/a.ts", "g", &["f"])]),
        ("src/b.ts".to_string(), vec![parsed("src/b.ts", "g", &["h"]), parsed("src/b.ts", "h", &[])]),
        ("src/c.ts".to_string(), vec![parsed("src/c.ts", "m", &["g"])]),
    ];
    let callables = collect_callable_items(&graphs);
    assert_eq!(callables.len(), 5);
    assert_eq!(callables[2].path, "src/b.ts");
    assert_eq!(callables[0].call_names, strings(&["g", "h", "k"]));
    let edges = build_parser_call_edges(&graphs);
    let listed: Vec<_> = edges
        .entries()
        .iter()
        .map(|(caller, callees)| (caller.clone(), callees.ids().clone()))
        .collect();
    assert_eq!(
        listed,
        vec![
            ("src/a.ts:f".to_string(), strings(&["src/a.ts:g", "src/b.ts:h"])),
            ("src/a.ts:g".to_string(), strings(&["src/a.ts:f"])),
            ("src/b.ts:g".to_string(), strings(&["src/b.ts:h"])),
            ("src/b.ts:h".to_string(), Vec::new()),
            ("src/c.ts:m".to_string(), Vec::new()),
        ]
    );
}

use special::language_packs::typescript::analyze::{ToolFileEdge, file_graph_from_import_edges, module_edges_from_tool};

#[test]
fn tool_file_edges_map_to_source_files_and_merge_specifiers() {
    let mut index = IdMap::new();
    index.insert("/repo/src/a.ts".to_string(), "src/a.ts".to_string());
    index.insert("/repo/src/b.ts".to_string(), "src/b.ts".to_string());
    index.insert("/repo/src/c.ts".to_string(), "src/c.ts".to_string());
    let edge = |from: &str, to: &str, specifier: &str| ToolFileEdge {
        from: from.to_string(),
        to: to.to_string(),
        specifier: specifier.to_string(),
    };
    let edges = vec![
        edge("/repo/src/a.ts", "/repo/src/b.ts", "./b"),
        edge("/repo/src/a.ts", "/repo/src/c.ts", "./c"),
        edge("/repo/src/a.ts", "/repo/src/a.ts", "./a"),
        edge("/repo/src/b.ts", "/elsewhere/x.ts", "x"),
        edge("/repo/src/c.ts", "/repo/src/b.ts", "./b"),
    ];
    let modules = module_edges_from_tool(&index, &edges);
    let files: Vec<_> = modules.entries().iter().map(|(file, _)| file.clone()).collect();
    assert_eq!(files, strings(&["src/a.ts", "src/c.ts"]));
    let a_specifiers: Vec<_> = modules.get("src/a.ts").unwrap().entries().iter().map(|(s, _)| s.clone()).collect();
    assert_eq!(a_specifiers, strings(&["./b", "./c"]));
    let graph = file_graph_from_import_edges(modules);
    let listed: Vec<_> = graph
        .entries()
        .iter()
        .map(|(file, targets)| (file.clone(), targets.ids().clone()))
        .collect();
    assert_eq!(
        listed,
        vec![
            ("src/a.ts".to_string(), strings(&["src/b.ts", "src/c.ts"])),
            ("src/c.ts".to_string(), strings(&["src/b.ts"])),
        ]
    );
}
