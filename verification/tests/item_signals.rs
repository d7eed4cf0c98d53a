use special::model::analysis::ModuleItemKind;
use special::modules::analyze::source_item_signals::{SourceItemMetrics, summarize_source_item_signals_with_metrics};
use special::source_items::{CallSyntaxKind, SourceCall, SourceItem, SourceItemKind, SourceSpan};

fn source_item(stable_id: &str, name: &str, root_visible: bool, calls: Vec<&str>) -> SourceItem {
    SourceItem {
        source_path: "src/lib.rs".to_string(),
        stable_id: stable_id.to_string(),
        name: name.to_string(),
        shape_fingerprint: String::new(),
        normalized_fingerprints: Vec::new(),
        shape_node_count: 0,
        kind: SourceItemKind::Function,
        span: SourceSpan { start_line: 1, end_line: 1, start_column: 0, end_column: 0, start_byte: 0, end_byte: 0 },
        public: root_visible,
        root_visible,
        is_test: false,
        calls: calls
            .into_iter()
            .map(|name| SourceCall { name: name.to_string(), qualifier: None, syntax: CallSyntaxKind::Identifier })
            .collect(),
        invocations: Vec::new(),
    }
}

fn metrics(parameters: usize, raw_strings: usize, cyclomatic: usize, cognitive: usize, panics: usize) -> SourceItemMetrics {
    SourceItemMetrics {
        parameter_count: parameters,
        bool_parameter_count: 0,
        raw_string_parameter_count: raw_strings,
        cyclomatic,
        cognitive,
        panic_site_count: panics,
    }
}

fn names(items: &[special::model::analysis::ModuleItemSignal]) -> Vec<String> {
    items.iter().map(|item| item.name.clone()).collect()
}

#[test]
fn item_signal_reachability_uses_stable_ids_not_display_names() {
    let summary = summarize_source_item_signals_with_metrics(
        &vec![
            source_item("src/lib.rs:ControllerA.handle:1", "handle", true, vec![]),
            source_item("src/lib.rs:ControllerB.handle:8", "handle", false, vec![]),
        ],
        &Vec::new(),
    );

    assert_eq!(summary.unreached_item_count, 1);
    assert_eq!(summary.unreached_items[0].name, "handle");
}

#[test]
fn reachability_follows_resolved_calls_from_roots_and_main() {
    let summary = summarize_source_item_signals_with_metrics(
        &vec![
            source_item("a", "main", false, vec!["helper"]),
            source_item("b", "helper", false, vec!["leaf", "println"]),
            source_item("c", "leaf", false, vec![]),
            source_item("d", "orphan", false, vec!["leaf"]),
            source_item("e", "api", true, vec![]),
        ],
        &Vec::new(),
    );
    assert_eq!(summary.analyzed_items, 5);
    assert_eq!(summary.unreached_item_count, 1);
    assert_eq!(names(&summary.unreached_items), vec!["orphan"]);
    // helper and leaf both have two references; helper makes more of its own.
    assert_eq!(names(&summary.connected_items), vec!["helper", "leaf", "main", "orphan"]);
    let helper = &summary.connected_items[0];
    assert_eq!((helper.internal_refs, helper.inbound_internal_refs, helper.external_refs), (1, 1, 1));
    let leaf = &summary.connected_items[1];
    assert_eq!((leaf.internal_refs, leaf.inbound_internal_refs, leaf.external_refs), (0, 2, 0));
}

#[test]
fn ambiguous_names_count_as_local_but_resolve_to_no_item() {
    let summary = summarize_source_item_signals_with_metrics(
        &vec![
            source_item("x1", "handle", false, vec![]),
            source_item("x2", "handle", false, vec![]),
            source_item("root", "entry", true, vec!["handle"]),
        ],
        &Vec::new(),
    );
    // The call names a local item, but two items share that name: neither is reached.
    let entry = summary.connected_items.iter().find(|item| item.name == "entry").unwrap();
    assert_eq!(entry.internal_refs, 1);
    assert_eq!(summary.unreached_item_count, 2);
    assert!(summary.connected_items.iter().all(|item| item.name != "handle"));
}

#[test]
fn outbound_heavy_and_isolated_items_are_ranked_by_outside_calls() {
    let summary = summarize_source_item_signals_with_metrics(
        &vec![
            source_item("p", "one", true, vec!["ext_a"]),
            source_item("q", "three", true, vec!["ext_a", "ext_b", "ext_c"]),
            source_item("r", "two", true, vec!["ext_a", "ext_b", "one"]),
        ],
        &Vec::new(),
    );
    assert_eq!(names(&summary.outbound_heavy_items), vec!["three", "two", "one"]);
    assert_eq!(names(&summary.isolated_items), vec!["three"]);
}

#[test]
fn metric_lists_use_the_last_entry_per_stable_id() {
    let summary = summarize_source_item_signals_with_metrics(
        &vec![
            source_item("m1", "alpha", true, vec![]),
            source_item("m2", "beta", true, vec![]),
            source_item("m3", "gamma", true, vec![]),
        ],
        &vec![
            ("m1".to_string(), metrics(1, 0, 9, 9, 0)),
            ("m1".to_string(), metrics(3, 2, 2, 4, 1)),
            ("m2".to_string(), metrics(3, 1, 1, 0, 2)),
            ("m3".to_string(), metrics(0, 0, 1, 0, 0)),
        ],
    );
    assert_eq!(names(&summary.highest_complexity_items), vec!["alpha"]);
    assert_eq!(summary.highest_complexity_items[0].cognitive, 4);
    assert_eq!(names(&summary.parameter_heavy_items), vec!["alpha", "beta"]);
    assert_eq!(names(&summary.stringly_boundary_items), vec!["alpha", "beta"]);
    assert_eq!(names(&summary.panic_heavy_items), vec!["beta", "alpha"]);
    assert_eq!(summary.panic_heavy_items[1].kind, ModuleItemKind::Function);
}

#[test]
fn unreached_items_sort_by_name_then_kind() {
    let mut method = source_item("k2", "same", false, vec![]);
    method.kind = SourceItemKind::Method;
    let summary = summarize_source_item_signals_with_metrics(
        &vec![method, source_item("k1", "same", false, vec![]), source_item("k0", "alpha", false, vec![])],
        &Vec::new(),
    );
    let listed: Vec<(String, ModuleItemKind)> =
        summary.unreached_items.iter().map(|item| (item.name.clone(), item.kind)).collect();
    assert_eq!(
        listed,
        vec![
            ("alpha".to_string(), ModuleItemKind::Function),
            ("same".to_string(), ModuleItemKind::Function),
            ("same".to_string(), ModuleItemKind::Method),
        ]
    );
}
