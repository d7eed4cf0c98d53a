use std::collections::BTreeMap;

use special::language_packs::typescript::boundary::resolve_candidate_file;
use special::language_packs::typescript::surface::{
    TypeScriptSurfaceSummary, is_review_surface, is_test_file_path, is_typescript_path, source_item_kind,
};
use special::model::analysis::{
    ModuleComplexitySummary, ModuleDependencySummary, ModuleDependencyTargetSummary, ModuleItemKind,
    ModuleMetricsSummary, ModuleTraceabilitySummary,
};
use special::modules::analyze::ProviderModuleAnalysis;
use special::modules::analyze::explain::{MetricExplanationKey, metric_explanation};
use special::modules::analyze::provider_merge::{build_dependency_summary, merge_provider_module_analysis};
use special::modules::analyze::traceability_core::normalize_path_for_known_sources;
use special::source_items::{SourceItem, SourceItemKind, SourceSpan};

#[test]
fn module_traceability_merge_keeps_first_provider_summary() {
    let mut summary = ProviderModuleAnalysis {
        metrics: ModuleMetricsSummary::default(),
        traceability: Some(ModuleTraceabilitySummary { analyzed_items: 1, ..ModuleTraceabilitySummary::default() }),
        traceability_unavailable_reason: Some("first".to_string()),
        ..ProviderModuleAnalysis::default()
    };
    merge_provider_module_analysis(
        &mut summary,
        ProviderModuleAnalysis {
            metrics: ModuleMetricsSummary::default(),
            traceability: Some(ModuleTraceabilitySummary { analyzed_items: 2, ..ModuleTraceabilitySummary::default() }),
            traceability_unavailable_reason: Some("second".to_string()),
            ..ProviderModuleAnalysis::default()
        },
    );
    assert_eq!(summary.traceability.as_ref().map(|t| t.analyzed_items), Some(1));
    assert_eq!(summary.traceability_unavailable_reason.as_deref(), Some("first"));
}

fn target(path: &str, count: usize) -> ModuleDependencyTargetSummary {
    ModuleDependencyTargetSummary { path: path.to_string(), count }
}

#[test]
fn dependency_merge_accumulates_counts_by_target() {
    let mut summary = ProviderModuleAnalysis {
        metrics: ModuleMetricsSummary::default(),
        dependencies: Some(ModuleDependencySummary {
            reference_count: 2,
            distinct_targets: 2,
            targets: vec![target("crate::shared", 1), target("serde", 1)],
        }),
        ..ProviderModuleAnalysis::default()
    };
    merge_provider_module_analysis(
        &mut summary,
        ProviderModuleAnalysis {
            metrics: ModuleMetricsSummary::default(),
            dependencies: Some(ModuleDependencySummary {
                reference_count: 3,
                distinct_targets: 2,
                targets: vec![target("crate::shared", 2), target("tokio", 1)],
            }),
            ..ProviderModuleAnalysis::default()
        },
    );
    let dependencies = summary.dependencies.expect("merged dependency summary should be present");
    assert_eq!(dependencies.reference_count, 5);
    assert_eq!(dependencies.distinct_targets, 3);
    assert_eq!(
        dependencies.targets.into_iter().map(|t| (t.path, t.count)).collect::<BTreeMap<_, _>>(),
        BTreeMap::from([("crate::shared".to_string(), 3), ("serde".to_string(), 1), ("tokio".to_string(), 1)])
    );
}

#[test]
fn complexity_merge_adds_totals_and_keeps_maxima() {
    let mut summary = ProviderModuleAnalysis {
        metrics: ModuleMetricsSummary { owned_lines: 10, public_items: 1, internal_items: 2 },
        complexity: Some(ModuleComplexitySummary {
            function_count: 2,
            total_cyclomatic: 5,
            max_cyclomatic: 4,
            total_cognitive: 3,
            max_cognitive: 1,
        }),
        ..ProviderModuleAnalysis::default()
    };
    merge_provider_module_analysis(
        &mut summary,
        ProviderModuleAnalysis {
            metrics: ModuleMetricsSummary { owned_lines: 99, public_items: 3, internal_items: 4 },
            complexity: Some(ModuleComplexitySummary {
                function_count: 1,
                total_cyclomatic: 2,
                max_cyclomatic: 2,
                total_cognitive: 6,
                max_cognitive: 6,
            }),
            ..ProviderModuleAnalysis::default()
        },
    );
    assert_eq!(summary.metrics.owned_lines, 10);
    assert_eq!(summary.metrics.public_items, 4);
    assert_eq!(summary.metrics.internal_items, 6);
    let c = summary.complexity.expect("complexity present");
    assert_eq!((c.function_count, c.total_cyclomatic, c.max_cyclomatic, c.total_cognitive, c.max_cognitive), (3, 7, 4, 9, 6));
}

#[test]
fn dependency_summary_of_a_map_keeps_the_last_entry_per_path() {
    let summary = build_dependency_summary(&vec![target("b", 2), target("a", 1), target("b", 4)]);
    assert_eq!(summary.reference_count, 5);
    assert_eq!(summary.distinct_targets, 2);
    assert_eq!(summary.targets.iter().map(|t| (t.path.as_str(), t.count)).collect::<Vec<_>>(), vec![("a", 1), ("b", 4)]);
}

#[test]
fn provider_surface_recognizes_typescript_files_and_test_files() {
    assert!(is_typescript_path("src/app.ts"));
    assert!(is_typescript_path("src/app.tsx"));
    assert!(!is_typescript_path("src/app.js"));
    assert!(is_test_file_path("src/app.test.ts"));
    assert!(is_test_file_path("src/tests/app.ts"));
    assert!(!is_test_file_path("src/app.ts"));
}

#[test]
fn provider_surface_keeps_tests_out_of_review_surface() {
    assert!(is_review_surface(true, "render", SourceItemKind::Function, false));
    assert!(is_review_surface(false, "main", SourceItemKind::Function, false));
    assert!(!is_review_surface(true, "render", SourceItemKind::Function, true));
}

#[test]
fn typescript_extension_needs_a_name_before_the_dot() {
    assert!(!is_typescript_path("src/.ts"));
    assert!(is_typescript_path("/abs/dir/index.d.ts"));
    assert!(!is_review_surface(false, "main", SourceItemKind::Method, false));
    assert_eq!(source_item_kind(SourceItemKind::Method), ModuleItemKind::Method);
}

fn item(name: &str, public: bool) -> SourceItem {
    SourceItem {
        source_path: "src/app.ts".to_string(),
        stable_id: format!("src/app.ts:{name}"),
        name: name.to_string(),
        shape_fingerprint: String::new(),
        normalized_fingerprints: Vec::new(),
        shape_node_count: 0,
        kind: SourceItemKind::Function,
        span: SourceSpan { start_line: 1, end_line: 1, start_column: 0, end_column: 0, start_byte: 0, end_byte: 0 },
        public,
        root_visible: public,
        is_test: false,
        calls: Vec::new(),
        invocations: Vec::new(),
    }
}

#[test]
fn surface_summary_counts_public_and_internal_items() {
    let mut summary = TypeScriptSurfaceSummary::default();
    summary.observe(&vec![item("a", true), item("b", false), item("c", false)]);
    assert_eq!(summary.public_items, 1);
    assert_eq!(summary.internal_items, 2);
}

#[test]
fn resolve_candidate_file_prefers_unique_normalized_match() {
    let candidate_files = vec!["src/app.ts".to_string(), "packages/foo/src/app.ts".to_string()];
    assert_eq!(resolve_candidate_file(&candidate_files, "packages/foo/src/app.ts"), Some("packages/foo/src/app.ts".to_string()));
    assert_eq!(resolve_candidate_file(&candidate_files, "src/app.ts"), Some("src/app.ts".to_string()));
}

#[test]
fn resolve_candidate_file_rejects_ambiguous_suffix_match() {
    let candidate_files = vec!["packages/foo/src/app.ts".to_string(), "packages/bar/src/app.ts".to_string()];
    assert_eq!(resolve_candidate_file(&candidate_files, "src/app.ts"), None);
}

#[test]
fn normalize_path_for_known_sources_prefers_unique_longest_suffix_match() {
    let normalized = normalize_path_for_known_sources(
        "/tmp/repo/go/app/main.go",
        &vec!["app/main.go".to_string(), "go/app/main.go".to_string()],
    );
    assert_eq!(normalized, "go/app/main.go");
}

#[test]
fn normalize_path_drops_private_prefix_when_nothing_matches() {
    let normalized = normalize_path_for_known_sources("/private/tmp/repo/x.rs", &vec!["other.rs".to_string()]);
    assert_eq!(normalized, "tmp/repo/x.rs");
    let exact = normalize_path_for_known_sources("/private/var/a.rs", &vec!["/var/a.rs".to_string(), "var/a.rs".to_string()]);
    assert_eq!(exact, "var/a.rs");
}

#[test]
fn every_metric_has_distinct_plain_and_precise_text() {
    let e = metric_explanation(MetricExplanationKey::FanIn);
    assert_eq!(e.plain, "other owned modules reach into this module.");
    assert_eq!(e.precise, "distinct inbound concrete-module dependencies resolved from owned code.");
    let i = metric_explanation(MetricExplanationKey::Instability);
    assert_eq!(i.precise, "efferent coupling / (afferent coupling + efferent coupling).");
}
