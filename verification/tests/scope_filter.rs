use special::model::analysis::{ArchitectureTraceabilityItem, ArchitectureTraceabilitySummary, ModuleItemKind};
use special::modules::analyze::repo_scope::filter_traceability_to_scope;

fn item(path: &str, line: usize, name: &str) -> ArchitectureTraceabilityItem {
    ArchitectureTraceabilityItem {
        path: path.to_string(),
        line,
        name: name.to_string(),
        kind: ModuleItemKind::Function,
        public: false,
        review_surface: false,
        test_file: false,
        module_backed_by_current_specs: false,
        module_connected_to_current_specs: false,
        module_ids: Vec::new(),
        mediated_reason: None,
        verifying_tests: Vec::new(),
        unverified_tests: Vec::new(),
        current_specs: Vec::new(),
        planned_specs: Vec::new(),
        deprecated_specs: Vec::new(),
    }
}

fn names(list: &[ArchitectureTraceabilityItem]) -> Vec<String> {
    list.iter().map(|i| i.name.clone()).collect()
}

#[test]
fn scope_filter_keeps_items_of_matched_files_sorted() {
    let mut summary = ArchitectureTraceabilitySummary {
        analyzed_items: 4,
        unexplained_items: vec![
            item("src/b.rs", 9, "late"),
            item("src/a.rs", 3, "kept"),
            item("src/c.rs", 1, "dropped"),
            item("src/b.rs", 2, "early"),
        ],
        ..ArchitectureTraceabilitySummary::default()
    };
    filter_traceability_to_scope(&vec!["src/b.rs".to_string(), "src/a.rs".to_string()], &mut summary);
    assert_eq!(names(&summary.unexplained_items), vec!["kept", "early", "late"]);
    assert_eq!(summary.analyzed_items, 3);
}

#[test]
fn sorting_trace_items_twice_changes_nothing() {
    let mut summary = ArchitectureTraceabilitySummary {
        analyzed_items: 3,
        current_spec_items: vec![item("src/b.rs", 1, "x"), item("src/a.rs", 5, "y"), item("src/a.rs", 5, "a")],
        ..ArchitectureTraceabilitySummary::default()
    };
    summary.sort_items();
    let first = names(&summary.current_spec_items);
    summary.sort_items();
    assert_eq!(names(&summary.current_spec_items), first);
    assert_eq!(first, vec!["a", "y", "x"]);
}
