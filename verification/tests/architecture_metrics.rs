use special::model::analysis::{
    ModuleAnalysisSummary, ModuleComplexitySummary, ModuleCouplingSummary, ModuleCoverageSummary, ModuleMetricsSummary,
    ModuleQualitySummary,
};
use special::model::architecture::{ImplementRef, ModuleNode};
use special::model::core_types::{ArchitectureKind, PlanState, SourceLocation};
use special::model::overview::GroupedCount;
use special::modules::architecture_metrics::{build_architecture_metrics, empty_architecture_metrics_summary};

fn location() -> SourceLocation {
    SourceLocation { path: "ARCHITECTURE.md".to_string(), line: 1 }
}

fn node(id: &str, kind: ArchitectureKind, plan: PlanState, implemented: bool, analysis: Option<ModuleAnalysisSummary>, children: Vec<ModuleNode>) -> ModuleNode {
    ModuleNode {
        id: id.to_string(),
        kind,
        text: String::new(),
        plan,
        location: location(),
        implements: if implemented {
            vec![ImplementRef { module_id: id.to_string(), location: location(), body_location: None, body: None }]
        } else {
            Vec::new()
        },
        pattern_applications: Vec::new(),
        analysis,
        children,
    }
}

fn groups(g: &[GroupedCount]) -> Vec<(String, usize)> {
    g.iter().map(|group| (group.value.clone(), group.count)).collect()
}

fn analysis(lines: usize, max_cyclomatic: usize, panics: usize, fan_in: usize) -> ModuleAnalysisSummary {
    ModuleAnalysisSummary {
        coverage: Some(ModuleCoverageSummary { file_scoped_implements: 1, item_scoped_implements: 2 }),
        metrics: Some(ModuleMetricsSummary { owned_lines: lines, public_items: 1, internal_items: 2 }),
        complexity: Some(ModuleComplexitySummary {
            function_count: 2,
            total_cyclomatic: max_cyclomatic + 1,
            max_cyclomatic,
            total_cognitive: 4,
            max_cognitive: 3,
        }),
        quality: Some(ModuleQualitySummary {
            public_function_count: 1,
            parameter_count: 3,
            bool_parameter_count: 1,
            raw_string_parameter_count: 0,
            panic_site_count: panics,
        }),
        item_signals: None,
        traceability: None,
        traceability_unavailable_reason: None,
        coupling: Some(ModuleCouplingSummary {
            fan_in,
            fan_out: 0,
            afferent_coupling: 0,
            efferent_coupling: 0,
            external_target_count: 2,
            ambiguous_internal_target_count: 0,
            unresolved_internal_target_count: 0,
        }),
        dependencies: None,
    }
}

#[test]
fn architecture_metrics_total_the_module_tree() {
    let forest = vec![
        node(
            "APP",
            ArchitectureKind::Area,
            PlanState::Current,
            false,
            None,
            vec![
                node("APP.B", ArchitectureKind::Module, PlanState::Current, true, Some(analysis(10, 5, 0, 1)), Vec::new()),
                node("APP.A", ArchitectureKind::Module, PlanState::Current, false, None, Vec::new()),
                node("APP.LATER", ArchitectureKind::Module, PlanState::Planned { release: None }, false, None, Vec::new()),
            ],
        ),
        node("CORE", ArchitectureKind::Module, PlanState::Current, true, Some(analysis(7, 2, 3, 0)), Vec::new()),
        node("EMPTY", ArchitectureKind::Area, PlanState::Current, false, None, Vec::new()),
    ];
    let metrics = build_architecture_metrics(&forest);
    assert_eq!(metrics.total_modules, 4);
    assert_eq!(metrics.total_areas, 2);
    assert_eq!(metrics.unimplemented_modules, 1);
    assert_eq!(metrics.file_scoped_implements, 2);
    assert_eq!(metrics.item_scoped_implements, 4);
    assert_eq!(metrics.owned_lines, 17);
    assert_eq!(metrics.public_items, 2);
    assert_eq!(metrics.internal_items, 4);
    assert_eq!(metrics.complexity_functions, 4);
    assert_eq!(metrics.total_cyclomatic, 9);
    assert_eq!(metrics.max_cyclomatic, 5);
    assert_eq!(metrics.total_cognitive, 8);
    assert_eq!(metrics.max_cognitive, 3);
    assert_eq!(metrics.quality_parameters, 6);
    assert_eq!(metrics.quality_panic_sites, 3);
    assert_eq!(metrics.unreached_items, 0);
    assert_eq!(groups(&metrics.modules_by_area), vec![("APP".to_string(), 3)]);
    assert_eq!(groups(&metrics.owned_lines_by_module), vec![("APP.B".to_string(), 10), ("CORE".to_string(), 7)]);
    assert_eq!(groups(&metrics.max_cyclomatic_by_module), vec![("APP.B".to_string(), 5), ("CORE".to_string(), 2)]);
    assert_eq!(groups(&metrics.panic_sites_by_module), vec![("CORE".to_string(), 3)]);
    assert_eq!(groups(&metrics.fan_in_by_module), vec![("APP.B".to_string(), 1)]);
    assert!(metrics.fan_out_by_module.is_empty());
    assert_eq!(groups(&metrics.external_dependency_targets_by_module), vec![("APP.B".to_string(), 2), ("CORE".to_string(), 2)]);
}

#[test]
fn architecture_metrics_of_no_nodes_are_empty() {
    let metrics = build_architecture_metrics(&Vec::new());
    let empty = empty_architecture_metrics_summary();
    assert_eq!(metrics.total_modules, empty.total_modules);
    assert_eq!(metrics.max_cognitive, 0);
    assert!(metrics.modules_by_area.is_empty());
}
