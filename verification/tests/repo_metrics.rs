use special::model::analysis::{
    ArchitectureAnalysisSummary, ArchitectureDuplicateItem, ArchitectureRepoSignalsSummary,
    ArchitectureTraceabilityItem, ArchitectureTraceabilitySummary, ArchitectureUnownedItem, ModuleItemKind,
};
use special::model::overview::GroupedCount;
use special::modules::analyze::repo_scope::filter_repo_analysis_summary_to_symbol;
use special::modules::metrics::build_repo_metrics;

fn item(path: &str, name: &str, review_surface: bool, public: bool) -> ArchitectureTraceabilityItem {
    ArchitectureTraceabilityItem {
        path: path.to_string(),
        line: 1,
        name: name.to_string(),
        kind: ModuleItemKind::Function,
        public,
        review_surface,
        test_file: false,
        module_backed_by_current_specs: false,
        module_connected_to_current_specs: false,
        module_ids: Vec::new(),
        mediated_reason: None,
        verifying_tests: Vec::new(),
        unverified_tests: Vec::new(),
        current_specs: Vec::new(),
        planned_specs: Vec::new(),
        deprecated_specs: Vec::new(),
    }
}

fn groups(list: &[GroupedCount]) -> Vec<(String, usize)> {
    list.iter().map(|group| (group.value.clone(), group.count)).collect()
}

#[test]
fn repo_metrics_count_findings_per_file() {
    let summary = ArchitectureAnalysisSummary {
        repo_signals: Some(ArchitectureRepoSignalsSummary {
            unowned_items: 3,
            unowned_item_details: vec![
                ArchitectureUnownedItem { path: "src/b.rs".to_string(), name: "x".to_string(), kind: ModuleItemKind::Function },
                ArchitectureUnownedItem { path: "src/a.rs".to_string(), name: "y".to_string(), kind: ModuleItemKind::Method },
                ArchitectureUnownedItem { path: "src/b.rs".to_string(), name: "z".to_string(), kind: ModuleItemKind::Function },
            ],
            duplicate_items: 1,
            duplicate_item_details: vec![ArchitectureDuplicateItem {
                module_id: "APP".to_string(),
                path: "src/c.rs".to_string(),
                name: "dup".to_string(),
                kind: ModuleItemKind::Function,
                duplicate_peer_count: 2,
            }],
            long_exact_prose_assertions: 0,
            long_exact_prose_assertion_details: Vec::new(),
            possible_pattern_clusters: 2,
            possible_missing_pattern_applications: 3,
            possible_missing_pattern_application_paths: vec![
                "src/m.rs".to_string(),
                "src/l.rs".to_string(),
                "src/m.rs".to_string(),
            ],
            long_prose_outside_docs: 1,
            long_prose_outside_docs_paths: vec!["README.txt".to_string()],
        }),
        traceability: Some(ArchitectureTraceabilitySummary {
            analyzed_items: 5,
            planned_only_items: vec![item("src/p.rs", "p", false, false)],
            deprecated_only_items: vec![item("src/d.rs", "d", false, false), item("src/d.rs", "e", false, false)],
            unexplained_items: vec![
                item("src/u.rs", "u1", true, true),
                item("src/u.rs", "u2", false, false),
                item("src/t.rs", "u3", true, false),
            ],
            ..ArchitectureTraceabilitySummary::default()
        }),
        traceability_unavailable_reason: None,
    };
    let metrics = build_repo_metrics(&summary);

    assert_eq!(metrics.architecture.source_outside_architecture, 3);
    assert_eq!(
        groups(&metrics.architecture.source_outside_architecture_by_file),
        vec![("src/a.rs".to_string(), 1), ("src/b.rs".to_string(), 2)]
    );
    assert_eq!(metrics.patterns.duplicate_source_shapes, 1);
    assert_eq!(groups(&metrics.patterns.duplicate_source_shapes_by_file), vec![("src/c.rs".to_string(), 1)]);
    assert_eq!(metrics.tests.exact_long_prose_assertions, 0);
    assert!(metrics.tests.exact_long_prose_assertions_by_file.is_empty());
    assert_eq!(metrics.patterns.possible_pattern_clusters, 2);
    assert_eq!(metrics.patterns.possible_missing_applications, 3);
    assert_eq!(
        groups(&metrics.patterns.possible_missing_applications_by_file),
        vec![("src/l.rs".to_string(), 1), ("src/m.rs".to_string(), 2)]
    );
    assert_eq!(metrics.docs.long_prose_outside_docs, 1);
    assert_eq!(groups(&metrics.docs.long_prose_outside_docs_by_file), vec![("README.txt".to_string(), 1)]);

    assert_eq!(metrics.specs.untraced_implementation, 3);
    assert_eq!(metrics.specs.planned_or_deprecated_only_implementation, 3);
    assert_eq!(
        groups(&metrics.specs.untraced_implementation_by_file),
        vec![("src/t.rs".to_string(), 1), ("src/u.rs".to_string(), 2)]
    );
    assert_eq!(
        groups(&metrics.specs.untraced_review_surface_by_file),
        vec![("src/t.rs".to_string(), 1), ("src/u.rs".to_string(), 1)]
    );
    let traceability = metrics.traceability.expect("traceability metrics");
    assert_eq!(traceability.analyzed_items, 5);
    assert_eq!(traceability.unexplained_items, 3);
    assert_eq!(traceability.unexplained_review_surface_items, 2);
    assert_eq!(traceability.unexplained_public_items, 1);
    assert_eq!(traceability.unexplained_internal_items, 2);
    assert_eq!(groups(&traceability.unexplained_items_by_file), groups(&metrics.specs.untraced_implementation_by_file));
}

#[test]
fn repo_metrics_without_analysis_are_zero() {
    let metrics = build_repo_metrics(&ArchitectureAnalysisSummary::default());
    assert_eq!(metrics.architecture.source_outside_architecture, 0);
    assert_eq!(metrics.specs.untraced_implementation, 0);
    assert!(metrics.traceability.is_none());
    assert!(metrics.patterns.duplicate_source_shapes_by_file.is_empty());
    assert_eq!(metrics.docs.long_prose_outside_docs, 0);
}

#[test]
fn symbol_filter_keeps_only_items_of_that_name() {
    let mut summary = ArchitectureAnalysisSummary {
        repo_signals: Some(ArchitectureRepoSignalsSummary {
            unowned_items: 2,
            unowned_item_details: vec![
                ArchitectureUnownedItem { path: "src/a.rs".to_string(), name: "keep".to_string(), kind: ModuleItemKind::Function },
                ArchitectureUnownedItem { path: "src/b.rs".to_string(), name: "drop".to_string(), kind: ModuleItemKind::Function },
            ],
            duplicate_items: 0,
            duplicate_item_details: Vec::new(),
            long_exact_prose_assertions: 0,
            long_exact_prose_assertion_details: Vec::new(),
            ..ArchitectureRepoSignalsSummary::default()
        }),
        traceability: Some(ArchitectureTraceabilitySummary {
            analyzed_items: 4,
            unexplained_items: vec![
                item("src/z.rs", "keep", false, false),
                item("src/y.rs", "other", false, false),
                item("src/a.rs", "keep", false, false),
            ],
            current_spec_items: vec![item("src/c.rs", "other", false, false)],
            ..ArchitectureTraceabilitySummary::default()
        }),
        traceability_unavailable_reason: Some("reason".to_string()),
    };
    filter_repo_analysis_summary_to_symbol("keep", &mut summary);
    let signals = summary.repo_signals.as_ref().unwrap();
    assert_eq!(signals.unowned_items, 1);
    assert_eq!(signals.unowned_item_details[0].path, "src/a.rs");
    let traceability = summary.traceability.as_ref().unwrap();
    assert_eq!(traceability.analyzed_items, 2);
    assert!(traceability.current_spec_items.is_empty());
    let paths: Vec<&str> = traceability.unexplained_items.iter().map(|item| item.path.as_str()).collect();
    assert_eq!(paths, vec!["src/a.rs", "src/z.rs"]);
    assert_eq!(summary.traceability_unavailable_reason.as_deref(), Some("reason"));
}
