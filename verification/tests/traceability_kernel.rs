use special::modules::analyze::traceability_core::graph::last_json_line;
use special::ids::{IdMap, IdSet};
use special::modules::analyze::traceability_core::graph::{
    ProjectedTraceabilityContract, ProjectedTraceabilityKernelInput, ProjectedTraceabilityReference,
    ReverseClosureReference, TraceGraph, TraceabilityItemSupport, TraceabilityKernel,
    build_projected_traceability_contract, build_projected_traceability_reference, build_reverse_closure_reference,
    collect_reverse_reachable_ids, collect_support_root_ids, derive_rust_reference_traceability_kernel,
    merge_trace_graph_edges, preserved_graph_item_ids_for_reference, preserved_item_ids_for_reference,
    select_traceability_kernel,
};

fn ids(values: &[&str]) -> IdSet {
    IdSet::from_vec(values.iter().map(|value| value.to_string()).collect())
}

fn edges(pairs: &[(&str, &[&str])]) -> IdMap<IdSet> {
    let mut map = IdMap::new();
    for (caller, callees) in pairs {
        map.insert(caller.to_string(), ids(callees));
    }
    map
}

fn support(name: &str, current: &[&str]) -> TraceabilityItemSupport {
    TraceabilityItemSupport {
        name: name.to_string(),
        has_item_scoped_support: true,
        has_file_scoped_support: false,
        current_specs: ids(current),
        planned_specs: IdSet::new(),
        deprecated_specs: IdSet::new(),
    }
}

fn roots(names: &[(&str, &str)]) -> IdMap<TraceabilityItemSupport> {
    let mut map = IdMap::new();
    for (name, spec) in names {
        map.insert(name.to_string(), support(name, &[spec]));
    }
    map
}

fn listed(set: &IdSet) -> Vec<String> {
    set.ids().clone()
}

#[test]
fn preserved_graph_item_ids_include_projected_items_outside_reverse_closure() {
    let reference = ProjectedTraceabilityReference {
        contract: ProjectedTraceabilityContract {
            projected_item_ids: ids(&["projected::orphan"]),
            preserved_reverse_closure_target_ids: ids(&["target"]),
        },
        exact_reverse_closure: ReverseClosureReference {
            target_ids: ids(&["target"]),
            node_ids: ids(&["target", "test::root"]),
            internal_edges: IdMap::new(),
        },
    };

    assert_eq!(
        preserved_graph_item_ids_for_reference(&reference),
        ids(&["projected::orphan", "target", "test::root"])
    );
    assert_eq!(
        preserved_item_ids_for_reference(
            &reference,
            vec!["projected::orphan".to_string(), "target".to_string()],
        ),
        ids(&["projected::orphan", "target"])
    );
}

#[test]
fn default_projected_kernel_requires_lean_without_test_opt_in() {
    let input =
        ProjectedTraceabilityKernelInput::from_projected_items_and_graph(ids(&["app::live"]), &TraceGraph {
            edges: IdMap::new(),
            root_supports: IdMap::new(),
        });
    assert_eq!(input.schema_version, 1);

    let kernel = select_traceability_kernel(None, false, true);
    assert_eq!(kernel, Ok(TraceabilityKernel::LeanProcess));
}

#[test]
fn old_rust_and_auto_kernel_selectors_are_rejected() {
    for selector in ["rust", "auto"] {
        let error = select_traceability_kernel(Some(selector), false, true)
            .expect_err("old non-Lean selectors should be rejected");
        assert!(
            error.contains("expected `lean` or debug/test-only `rust-reference`"),
            "unexpected selector error for {selector}: {error}"
        );
    }
}

#[test]
fn projected_traceability_kernel_targets_only_supported_projected_items() {
    let graph = TraceGraph {
        edges: edges(&[
            ("tests::test_live", &["app::live"]),
            ("tests::test_helper", &["app::helper"]),
            ("app::helper", &["app::live"]),
        ]),
        root_supports: roots(&[("tests::test_live", "APP.LIVE")]),
    };
    let contract = build_projected_traceability_contract(ids(&["app::live", "app::orphan"]), &graph)
        .expect("projected contract should derive");

    assert_eq!(contract.projected_item_ids, ids(&["app::live", "app::orphan"]));
    assert_eq!(contract.preserved_reverse_closure_target_ids, ids(&["app::live"]));

    let reference = build_projected_traceability_reference(contract, &graph).expect("reference should derive");

    assert_eq!(
        reference.exact_reverse_closure.node_ids,
        ids(&["app::live", "app::helper", "tests::test_live", "tests::test_helper"])
    );
}

#[test]
fn projected_traceability_kernel_wire_schema_honors_explicit_contract_targets() {
    let graph = TraceGraph { edges: IdMap::new(), root_supports: IdMap::new() };
    let contract = ProjectedTraceabilityContract {
        projected_item_ids: ids(&["app::orphan"]),
        preserved_reverse_closure_target_ids: ids(&["app::orphan"]),
    };
    let reference = build_projected_traceability_reference(contract, &graph).expect("reference should derive");

    assert_eq!(reference.exact_reverse_closure.node_ids, ids(&["app::orphan"]));
}

#[test]
fn support_root_collection_is_reflexive_for_root_targets() {
    let graph = TraceGraph { edges: IdMap::new(), root_supports: roots(&[("test::root", "APP.ROOT")]) };

    let mut expected = IdMap::new();
    expected.insert("test::root".to_string(), ids(&["test::root"]));
    assert_eq!(collect_support_root_ids(vec!["test::root".to_string()], &graph), expected);
}

#[test]
fn reverse_reachability_follows_chains_and_cycles() {
    let graph = TraceGraph {
        edges: edges(&[("a", &["b"]), ("b", &["c"]), ("c", &["b"]), ("x", &["y"])]),
        root_supports: IdMap::new(),
    };
    let reachable = collect_reverse_reachable_ids(vec!["c".to_string(), "a".to_string(), "y".to_string()], &graph);
    assert_eq!(listed(reachable.get("c").unwrap()), vec!["a", "b", "c"]);
    assert!(reachable.get("a").unwrap().is_empty());
    assert_eq!(listed(reachable.get("y").unwrap()), vec!["x"]);
    assert!(reachable.get("b").is_none());
}

#[test]
fn support_roots_are_the_root_callers_of_an_item() {
    let graph = TraceGraph {
        edges: edges(&[("t1", &["helper"]), ("t2", &["other"]), ("helper", &["leaf"]), ("plain", &["leaf"])]),
        root_supports: roots(&[("t1", "A"), ("t2", "B")]),
    };
    let supports = collect_support_root_ids(vec!["leaf".to_string(), "other".to_string(), "free".to_string()], &graph);
    assert_eq!(listed(supports.get("leaf").unwrap()), vec!["t1"]);
    assert_eq!(listed(supports.get("other").unwrap()), vec!["t2"]);
    assert!(supports.get("free").unwrap().is_empty());
}

#[test]
fn reverse_closure_keeps_only_internal_edges() {
    let graph = TraceGraph {
        edges: edges(&[("t", &["mid", "elsewhere"]), ("mid", &["target"]), ("side", &["t2"])]),
        root_supports: IdMap::new(),
    };
    let closure = build_reverse_closure_reference(vec!["target".to_string()], &graph);
    assert_eq!(listed(&closure.target_ids), vec!["target"]);
    assert_eq!(listed(&closure.node_ids), vec!["mid", "t", "target"]);
    assert_eq!(listed(closure.internal_edges.get("t").unwrap()), vec!["mid"]);
    assert_eq!(listed(closure.internal_edges.get("mid").unwrap()), vec!["target"]);
    assert!(closure.internal_edges.get("side").is_none());
}

#[test]
fn reference_kernel_refuses_other_schema_versions() {
    let mut input = ProjectedTraceabilityKernelInput::from_projected_items_and_graph(
        ids(&["a"]),
        &TraceGraph { edges: IdMap::new(), root_supports: IdMap::new() },
    );
    input.schema_version = 7;
    let error = derive_rust_reference_traceability_kernel(input).expect_err("schema 7 is unknown");
    assert_eq!(error, "unsupported traceability kernel schema version 7");
}

#[test]
fn kernel_selection_follows_the_selector() {
    assert_eq!(select_traceability_kernel(Some("rust-reference"), false, true), Ok(TraceabilityKernel::RustReference));
    assert_eq!(
        select_traceability_kernel(Some("rust-reference"), false, false),
        Err("SPECIAL_TRACEABILITY_KERNEL=rust-reference is only available in debug/test builds; production traceability requires the Lean kernel".to_string())
    );
    assert_eq!(select_traceability_kernel(Some(""), false, true), Ok(TraceabilityKernel::LeanProcess));
    assert_eq!(select_traceability_kernel(Some("lean"), false, true), Ok(TraceabilityKernel::LeanProcess));
    assert_eq!(select_traceability_kernel(None, true, true), Ok(TraceabilityKernel::RustReference));
    assert_eq!(
        select_traceability_kernel(Some("z3"), false, true),
        Err("unsupported SPECIAL_TRACEABILITY_KERNEL value `z3`; expected `lean` or debug/test-only `rust-reference`".to_string())
    );
}

#[test]
fn merging_edges_unions_callees_per_caller() {
    let mut target = edges(&[("a", &["b"]), ("c", &["d"])]);
    merge_trace_graph_edges(&mut target, edges(&[("a", &["e"]), ("f", &["g"])]));
    assert_eq!(listed(target.get("a").unwrap()), vec!["b", "e"]);
    assert_eq!(listed(target.get("c").unwrap()), vec!["d"]);
    assert_eq!(listed(target.get("f").unwrap()), vec!["g"]);
}

#[test]
fn last_json_line_takes_the_last_object_line() {
    assert_eq!(
        last_json_line("log\n{\"a\":1}\r\nnoise\n  {\"b\":2}\r\nend"),
        Some("  {\"b\":2}".to_string())
    );
    assert_eq!(last_json_line("{\"only\":true}"), Some("{\"only\":true}".to_string()));
    assert_eq!(last_json_line("no json here\n\n[1,2]\n"), None);
    assert_eq!(last_json_line(""), None);
}
