use special::model::analysis::{
    ArchitectureTraceabilityItem, ArchitectureTraceabilitySummary, ModuleAnalysisOptions, ModuleItemKind,
    ModuleTraceabilityItem, ModuleTraceabilitySummary,
};
use special::model::architecture::{ModuleDecl, PatternStrictness};
use special::model::core_types::{
    ArchitectureKind, DeprecatedRelease, NodeKind, PlanState, PlannedRelease, SourceLocation,
};
use special::model::overview::{grouped_count_map, grouped_counts};
use special::model::spec::SpecDecl;

fn location() -> SourceLocation {
    SourceLocation { path: "specs/special.rs".to_string(), line: 1 }
}

#[test]
fn rejects_empty_planned_release_values() {
    let error = PlannedRelease::new("   ").expect_err("empty releases should be rejected");
    assert_eq!(error.to_string(), "planned release metadata must not be empty");
}

#[test]
fn rejects_empty_deprecated_release_values() {
    let error = DeprecatedRelease::new("   ").expect_err("empty releases should be rejected");
    assert_eq!(error.to_string(), "deprecated release metadata must not be empty");
}

#[test]
fn rejects_planned_groups_at_construction_time() {
    let error = SpecDecl::new(
        "SPECIAL".to_string(),
        NodeKind::Group,
        "Grouping only.".to_string(),
        PlanState::planned(None),
        false,
        None,
        location(),
    )
    .expect_err("groups should not accept planned state");
    assert_eq!(error.to_string(), "`@group` nodes may not be planned");
}

#[test]
fn rejects_turning_groups_planned_after_construction() {
    let mut group = SpecDecl::new(
        "SPECIAL".to_string(),
        NodeKind::Group,
        "Grouping only.".to_string(),
        PlanState::current(),
        false,
        None,
        location(),
    )
    .expect("current groups should be valid");
    let error = group.set_plan(PlanState::planned(None)).expect_err("groups should stay unplannable");
    assert_eq!(error.to_string(), "`@group` nodes may not be planned");
}

#[test]
fn rejects_deprecated_groups_at_construction_time() {
    let error = SpecDecl::new(
        "SPECIAL".to_string(),
        NodeKind::Group,
        "Grouping only.".to_string(),
        PlanState::current(),
        true,
        Some(DeprecatedRelease::new("0.6.0").expect("release should be valid")),
        location(),
    )
    .expect_err("groups should not accept deprecated state");
    assert_eq!(error.to_string(), "`@group` nodes may not be deprecated");
}

#[test]
fn rejects_conflicting_spec_lifecycle_metadata() {
    let error = SpecDecl::new(
        "SPECIAL".to_string(),
        NodeKind::Spec,
        "Grouping only.".to_string(),
        PlanState::planned(None),
        true,
        Some(DeprecatedRelease::new("0.6.0").expect("release should be valid")),
        location(),
    )
    .expect_err("specs should not accept conflicting lifecycle state");
    assert_eq!(error.to_string(), "@spec may not be both planned and deprecated");
}

#[test]
fn rejects_deprecated_release_without_deprecated_state() {
    let error = SpecDecl::new(
        "SPECIAL".to_string(),
        NodeKind::Spec,
        "Grouping only.".to_string(),
        PlanState::Current,
        false,
        Some(DeprecatedRelease::new("0.6.0").expect("release should be valid")),
        location(),
    )
    .expect_err("deprecated release metadata should require deprecated state");
    assert_eq!(error.to_string(), "@deprecated release metadata requires @deprecated");
}

#[test]
fn rejects_planned_areas_at_construction_time() {
    let error = ModuleDecl::new(
        "SPECIAL.AREA".to_string(),
        ArchitectureKind::Area,
        "Structural area.".to_string(),
        PlanState::planned(None),
        SourceLocation { path: "ARCHITECTURE.md".to_string(), line: 1 },
    )
    .expect_err("areas should not accept planned state");
    assert_eq!(error.to_string(), "`@area` nodes may not be planned");
}

#[test]
fn accepts_planned_modules_and_keeps_their_release() {
    let module = ModuleDecl::new(
        "APP.CORE".to_string(),
        ArchitectureKind::Module,
        "Core.".to_string(),
        PlanState::planned(Some(PlannedRelease::new("1.2.0").expect("valid release"))),
        SourceLocation { path: "ARCHITECTURE.md".to_string(), line: 3 },
    )
    .expect("planned modules are allowed");
    assert!(module.is_planned());
    assert_eq!(module.kind(), ArchitectureKind::Module);
    assert_eq!(module.plan().release(), Some("1.2.0"));
    assert_eq!(module.id_str(), "APP.CORE");
}

fn module_item(name: &str, line: usize, kind: ModuleItemKind) -> ModuleTraceabilityItem {
    ModuleTraceabilityItem {
        line,
        name: name.to_string(),
        kind,
        mediated_reason: None,
        verifying_tests: Vec::new(),
        unverified_tests: Vec::new(),
        current_specs: Vec::new(),
        planned_specs: Vec::new(),
        deprecated_specs: Vec::new(),
    }
}

fn architecture_item(path: &str, name: &str, line: usize, kind: ModuleItemKind) -> ArchitectureTraceabilityItem {
    ArchitectureTraceabilityItem {
        path: path.to_string(),
        line,
        name: name.to_string(),
        kind,
        public: false,
        review_surface: false,
        test_file: false,
        module_backed_by_current_specs: false,
        module_connected_to_current_specs: false,
        module_ids: Vec::new(),
        mediated_reason: None,
        verifying_tests: Vec::new(),
        unverified_tests: Vec::new(),
        current_specs: Vec::new(),
        planned_specs: Vec::new(),
        deprecated_specs: Vec::new(),
    }
}

#[test]
fn traceability_summaries_sort_items_deterministically() {
    let mut module = ModuleTraceabilitySummary {
        current_spec_items: vec![
            module_item("zeta", 3, ModuleItemKind::Function),
            module_item("alpha", 9, ModuleItemKind::Method),
            module_item("alpha", 2, ModuleItemKind::Function),
        ],
        ..ModuleTraceabilitySummary::default()
    };
    module.sort_items();
    assert_eq!(
        module.current_spec_items.iter().map(|item| (item.name.clone(), item.line, item.kind)).collect::<Vec<_>>(),
        vec![
            ("alpha".to_string(), 2, ModuleItemKind::Function),
            ("alpha".to_string(), 9, ModuleItemKind::Method),
            ("zeta".to_string(), 3, ModuleItemKind::Function),
        ]
    );

    let mut repo = ArchitectureTraceabilitySummary {
        current_spec_items: vec![
            architecture_item("src/z.rs", "same", 2, ModuleItemKind::Function),
            architecture_item("src/a.rs", "zeta", 4, ModuleItemKind::Function),
            architecture_item("src/a.rs", "alpha", 1, ModuleItemKind::Method),
        ],
        ..ArchitectureTraceabilitySummary::default()
    };
    repo.sort_items();
    assert_eq!(
        repo.current_spec_items.iter().map(|item| (item.path.clone(), item.name.clone(), item.line)).collect::<Vec<_>>(),
        vec![
            ("src/a.rs".to_string(), "alpha".to_string(), 1),
            ("src/a.rs".to_string(), "zeta".to_string(), 4),
            ("src/z.rs".to_string(), "same".to_string(), 2),
        ]
    );
}

#[test]
fn path_order_compares_components_before_separators() {
    let mut repo = ArchitectureTraceabilitySummary {
        unexplained_items: vec![
            architecture_item("a-b/x.rs", "f", 1, ModuleItemKind::Function),
            architecture_item("a/b.rs", "f", 1, ModuleItemKind::Function),
        ],
        ..ArchitectureTraceabilitySummary::default()
    };
    repo.sort_items();
    assert_eq!(repo.unexplained_items[0].path, "a/b.rs");
    assert_eq!(repo.unexplained_items[1].path, "a-b/x.rs");
}

#[test]
fn unexplained_counts_partition_the_unexplained_items() {
    let mut public_owned = architecture_item("src/a.rs", "a", 1, ModuleItemKind::Function);
    public_owned.public = true;
    public_owned.review_surface = true;
    public_owned.module_ids = vec!["APP".to_string()];
    public_owned.module_backed_by_current_specs = true;
    public_owned.module_connected_to_current_specs = true;
    let mut internal_test = architecture_item("tests/t.rs", "t", 2, ModuleItemKind::Function);
    internal_test.test_file = true;
    internal_test.module_backed_by_current_specs = true;
    let summary = ArchitectureTraceabilitySummary {
        analyzed_items: 2,
        unexplained_items: vec![public_owned, internal_test],
        ..ArchitectureTraceabilitySummary::default()
    };
    assert_eq!(summary.unexplained_public_items(), 1);
    assert_eq!(summary.unexplained_internal_items(), 1);
    assert_eq!(summary.unexplained_review_surface_items(), 1);
    assert_eq!(summary.unexplained_test_file_items(), 1);
    assert_eq!(summary.unexplained_module_owned_items(), 1);
    assert_eq!(summary.unexplained_unowned_items(), 1);
    assert_eq!(summary.unexplained_module_backed_items(), 2);
    assert_eq!(summary.unexplained_module_connected_items(), 1);
    assert_eq!(summary.unexplained_module_isolated_items(), 1);
}

#[test]
fn extend_from_appends_items_and_adds_counts() {
    let mut summary = ArchitectureTraceabilitySummary {
        analyzed_items: 3,
        current_spec_items: vec![architecture_item("src/a.rs", "a", 1, ModuleItemKind::Function)],
        ..ArchitectureTraceabilitySummary::default()
    };
    summary.extend_from(ArchitectureTraceabilitySummary {
        analyzed_items: 4,
        current_spec_items: vec![architecture_item("src/b.rs", "b", 2, ModuleItemKind::Method)],
        ..ArchitectureTraceabilitySummary::default()
    });
    assert_eq!(summary.analyzed_items, 7);
    assert_eq!(summary.current_spec_items.len(), 2);
    assert_eq!(summary.current_spec_items[1].name, "b");
}

#[test]
fn traceability_turns_on_coverage_and_metrics() {
    let options = ModuleAnalysisOptions { coverage: false, metrics: false, traceability: true }.normalized();
    assert!(options.coverage && options.metrics && options.traceability);
    let plain = ModuleAnalysisOptions { coverage: false, metrics: true, traceability: false }.normalized();
    assert!(!plain.coverage && plain.metrics && !plain.traceability);
    assert!(!ModuleAnalysisOptions::default().any());
    assert!(ModuleAnalysisOptions { coverage: true, metrics: false, traceability: false }.any());
}

#[test]
fn grouped_counts_count_each_value_in_ascending_order() {
    let groups = grouped_counts(vec!["b".to_string(), "a".to_string(), "b".to_string(), "c".to_string(), "b".to_string()]);
    assert_eq!(
        groups.iter().map(|g| (g.value.clone(), g.count)).collect::<Vec<_>>(),
        vec![("a".to_string(), 1), ("b".to_string(), 3), ("c".to_string(), 1)]
    );
    assert!(grouped_counts(Vec::new()).is_empty());
}

#[test]
fn grouped_count_map_keeps_the_last_entry_per_key() {
    let groups = grouped_count_map(vec![("z".to_string(), 2), ("m".to_string(), 1), ("z".to_string(), 5)]);
    assert_eq!(
        groups.iter().map(|g| (g.value.clone(), g.count)).collect::<Vec<_>>(),
        vec![("m".to_string(), 1), ("z".to_string(), 5)]
    );
}

#[test]
fn pattern_strictness_reads_its_labels() {
    assert_eq!(PatternStrictness::parse("high"), Some(PatternStrictness::High));
    assert_eq!(PatternStrictness::parse("low"), Some(PatternStrictness::Low));
    assert_eq!(PatternStrictness::parse("extreme"), None);
    assert_eq!(PatternStrictness::default(), PatternStrictness::Medium);
    assert_eq!(PatternStrictness::Medium.as_str(), "medium");
}

#[test]
fn release_labels_stay_trimmed_through_setters() {
    let mut decl = SpecDecl::new(
        "EXPORT".to_string(),
        NodeKind::Spec,
        "Exports data.".to_string(),
        PlanState::current(),
        true,
        Some(DeprecatedRelease::new("  0.6.0  ").expect("release should be valid")),
        location(),
    )
    .expect("deprecated spec should be valid");
    assert_eq!(decl.deprecated_release(), Some("0.6.0"));
    assert!(decl.set_plan(PlanState::planned(None)).is_err());
    assert_eq!(decl.deprecated_release(), Some("0.6.0"));
    assert!(decl.is_deprecated());
    assert!(decl.set_deprecated(false, None).is_ok());
    assert_eq!(decl.deprecated_release(), None);
    let release = PlannedRelease::new(" 1.0 ").expect("release should be valid");
    assert!(decl.set_plan(PlanState::planned(Some(release))).is_ok());
    assert_eq!(decl.planned_release(), Some("1.0"));
    assert!(decl.is_planned());
    assert!(decl.set_deprecated(true, Some(DeprecatedRelease::new("2.0").expect("valid"))).is_err());
    assert_eq!(decl.deprecated_release(), None);
    assert_eq!(decl.planned_release(), Some("1.0"));
}
