use special::ids::{IdMap, IdSet};
use special::model::analysis::ModuleItemKind;
use special::modules::analyze::traceability_core::evidence::{
    TraceabilityInputs, TraceabilityOwnedItem, build_traceability_analysis,
};
use special::modules::analyze::traceability_core::graph::{TraceGraph, TraceabilityItemSupport};
use special::modules::analyze::traceability_core::summary::{
    display_path, stable_id_line, summarize_module_traceability, summarize_repo_traceability,
};

fn ids(values: &[&str]) -> IdSet {
    IdSet::from_vec(values.iter().map(|value| value.to_string()).collect())
}

fn owned(stable_id: &str, name: &str, modules: &[&str], mediated: Option<&str>) -> TraceabilityOwnedItem {
    TraceabilityOwnedItem {
        stable_id: stable_id.to_string(),
        kind: ModuleItemKind::Function,
        name: name.to_string(),
        path: format!("/repo/src/{name}.rs"),
        public: true,
        review_surface: false,
        test_file: false,
        module_ids: modules.iter().map(|module| module.to_string()).collect(),
        mediated_reason: mediated.map(|reason| reason.to_string()),
    }
}

fn support(name: &str, item_scoped: bool, current: &[&str], planned: &[&str]) -> TraceabilityItemSupport {
    TraceabilityItemSupport {
        name: name.to_string(),
        has_item_scoped_support: item_scoped,
        has_file_scoped_support: !item_scoped,
        current_specs: ids(current),
        planned_specs: ids(planned),
        deprecated_specs: IdSet::new(),
    }
}

fn graph() -> TraceGraph {
    let mut edges = IdMap::new();
    edges.insert("t_current".to_string(), ids(&["live:3"]));
    edges.insert("t_planned".to_string(), ids(&["later:5"]));
    edges.insert("t_bare".to_string(), ids(&["tested:7"]));
    edges.insert("t_file".to_string(), ids(&["filed:9"]));
    edges.insert("live:3".to_string(), ids(&["helper:4"]));
    let mut roots = IdMap::new();
    roots.insert("t_current".to_string(), support("t_current", true, &["APP.LIVE"], &[]));
    roots.insert("t_planned".to_string(), support("t_planned", true, &[], &["APP.LATER"]));
    roots.insert("t_bare".to_string(), support("t_bare", true, &[], &[]));
    roots.insert("t_file".to_string(), support("t_file", false, &["APP.FILE"], &[]));
    TraceGraph { edges, root_supports: roots }
}

fn items() -> Vec<TraceabilityOwnedItem> {
    vec![
        owned("live:3", "live", &["APP"], None),
        owned("helper:4", "helper", &["APP"], None),
        owned("later:5", "later", &["OTHER"], None),
        owned("tested:7", "tested", &[], None),
        owned("filed:9", "filed", &[], None),
        owned("macro:11", "generated", &["APP"], Some("generated code")),
        owned("orphan:13", "orphan", &["APP"], None),
    ]
}

fn names(records: &[special::model::analysis::ArchitectureTraceabilityItem]) -> Vec<String> {
    records.iter().map(|record| record.name.clone()).collect()
}

#[test]
fn repo_traceability_places_each_item_in_its_bucket() {
    let analysis =
        build_traceability_analysis(TraceabilityInputs { repo_items: items(), context_items: Vec::new(), graph: graph() });
    assert_eq!(analysis.current_spec_backed_module_ids.ids(), &vec!["APP".to_string()]);
    assert!(analysis.module_connected_item_ids.contains("live:3"));
    assert!(analysis.module_connected_item_ids.contains("helper:4"));
    assert!(!analysis.module_connected_item_ids.contains("orphan:13"));

    let summary = summarize_repo_traceability("/repo", &analysis);
    assert_eq!(summary.analyzed_items, 7);
    assert_eq!(names(&summary.current_spec_items), vec!["filed", "helper", "live"]);
    assert_eq!(names(&summary.planned_only_items), vec!["later"]);
    assert_eq!(names(&summary.unverified_test_items), vec!["tested"]);
    assert_eq!(names(&summary.file_scoped_only_items), vec!["filed"]);
    assert_eq!(names(&summary.statically_mediated_items), vec!["generated"]);
    assert_eq!(names(&summary.unexplained_items), vec!["orphan"]);

    let live = summary.current_spec_items.iter().find(|record| record.name == "live").unwrap();
    assert_eq!(live.path, "src/live.rs");
    assert_eq!(live.line, 3);
    assert_eq!(live.current_specs, vec!["APP.LIVE".to_string()]);
    assert_eq!(live.verifying_tests, vec!["t_current".to_string()]);
    assert!(live.module_backed_by_current_specs);
    assert!(live.module_connected_to_current_specs);
    let orphan = &summary.unexplained_items[0];
    assert!(orphan.module_backed_by_current_specs);
    assert!(!orphan.module_connected_to_current_specs);
    let tested = &summary.unverified_test_items[0];
    assert_eq!(tested.unverified_tests, vec!["t_bare".to_string()]);
}

#[test]
fn module_traceability_uses_the_owned_items() {
    let analysis =
        build_traceability_analysis(TraceabilityInputs { repo_items: items(), context_items: Vec::new(), graph: graph() });
    let owned_items = vec![owned("orphan:13", "orphan", &["APP"], None), owned("live:3", "live", &["APP"], None)];
    let summary = summarize_module_traceability(&owned_items, &analysis);
    assert_eq!(summary.analyzed_items, 2);
    assert_eq!(summary.current_spec_items.len(), 1);
    assert_eq!(summary.current_spec_items[0].name, "live");
    assert_eq!(summary.unexplained_items[0].line, 13);
}

#[test]
fn stable_id_lines_are_the_number_after_the_last_colon() {
    assert_eq!(stable_id_line("src/lib.rs:ControllerA.handle:12"), 12);
    assert_eq!(stable_id_line("x:+7"), 7);
    assert_eq!(stable_id_line("x:abc"), 0);
    assert_eq!(stable_id_line("x:"), 0);
    assert_eq!(stable_id_line("42"), 42);
    assert_eq!(stable_id_line("x:99999999999999999999999999"), 0);
}

#[test]
fn display_paths_are_relative_to_the_root_when_under_it() {
    assert_eq!(display_path("/repo", "/repo/src/a.rs"), "src/a.rs");
    assert_eq!(display_path("/repo", "/other/a.rs"), "/other/a.rs");
    assert_eq!(display_path("", "src/a.rs"), "src/a.rs");
    assert_eq!(display_path("/repo", "/repo"), "");
}
