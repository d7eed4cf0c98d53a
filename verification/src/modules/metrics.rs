//! Repository health metrics derived from a repository analysis: counts per
//! area and, for each kind of finding, how many fall in each file.
use vstd::prelude::*;

use crate::model::analysis::{
    ArchitectureAnalysisSummary, ArchitectureDuplicateItem, ArchitectureLongExactProseAssertion,
    ArchitectureRepoSignalsSummary, ArchitectureTraceabilityItem, ArchitectureTraceabilitySummary,
    ArchitectureUnownedItem,
};
use crate::model::overview::{
    GroupedCount, RepoArchitectureHealthMetrics, RepoDocsHealthMetrics, RepoMetricsSummary, RepoPatternHealthMetrics,
    RepoSpecHealthMetrics, RepoTestHealthMetrics, RepoTraceabilityMetrics, group_holds, grouped_counts,
    groups_ascending, occurrences,
};
use crate::model::analysis::{UnexplainedFacet, count_facet};

verus! {

/// `groups` counts `values`: one group per distinct value, in ascending
/// order, each with how often its value occurs.
pub open spec fn tallies(groups: Seq<GroupedCount>, values: Seq<String>) -> bool {
    &&& groups_ascending(groups)
    &&& forall|k: int|
        0 <= k < groups.len() ==> (#[trigger] groups[k]).count == occurrences(values, groups[k].value@)
            && groups[k].count > 0
    &&& forall|j: int| 0 <= j < values.len() ==> #[trigger] group_holds(groups, values[j]@)
}

/// A copy of a list of strings.
fn copy_strings(v: &Vec<String>) -> (r: Vec<String>)
    ensures
        r@ == v@,
{
    let mut out: Vec<String> = Vec::new();
    let mut i: usize = 0;
    while i < v.len()
        invariant
            i <= v@.len(),
            out@ == v@.take(i as int),
        decreases v@.len() - i,
    {
        out.push(v[i].clone());
        proof {
            assert(v@.take(i + 1) =~= v@.take(i as int).push(v@[i as int]));
        }
        i = i + 1;
    }
    proof {
        assert(v@.take(i as int) =~= v@);
    }
    out
}

/// The files of the items outside the architecture.
pub open spec fn unowned_paths(d: Seq<ArchitectureUnownedItem>) -> Seq<String> {
    d.map_values(|x: ArchitectureUnownedItem| x.path)
}

/// The files of the duplicated items.
pub open spec fn duplicate_paths(d: Seq<ArchitectureDuplicateItem>) -> Seq<String> {
    d.map_values(|x: ArchitectureDuplicateItem| x.path)
}

/// The files of the exact long prose assertions.
pub open spec fn assertion_paths(d: Seq<ArchitectureLongExactProseAssertion>) -> Seq<String> {
    d.map_values(|x: ArchitectureLongExactProseAssertion| x.path)
}

/// The files of traceability items.
pub open spec fn item_paths(d: Seq<ArchitectureTraceabilityItem>) -> Seq<String> {
    d.map_values(|x: ArchitectureTraceabilityItem| x.path)
}

/// The files of the traceability items on the review surface, in order.
pub open spec fn review_surface_paths(d: Seq<ArchitectureTraceabilityItem>) -> Seq<String>
    decreases d.len(),
{
    if d.len() == 0 {
        Seq::empty()
    } else if d.last().review_surface {
        review_surface_paths(d.drop_last()).push(d.last().path)
    } else {
        review_surface_paths(d.drop_last())
    }
}

fn unowned_paths_of(d: &Vec<ArchitectureUnownedItem>) -> (r: Vec<String>)
    ensures
        r@ == unowned_paths(d@),
{
    let mut out: Vec<String> = Vec::new();
    let mut i: usize = 0;
    while i < d.len()
        invariant
            i <= d@.len(),
            out@ == unowned_paths(d@.take(i as int)),
        decreases d@.len() - i,
    {
        out.push(d[i].path.clone());
        proof {
            assert(unowned_paths(d@.take(i + 1)) =~= unowned_paths(d@.take(i as int)).push(d@[i as int].path));
        }
        i = i + 1;
    }
    proof {
        assert(d@.take(i as int) =~= d@);
    }
    out
}

fn duplicate_paths_of(d: &Vec<ArchitectureDuplicateItem>) -> (r: Vec<String>)
    ensures
        r@ == duplicate_paths(d@),
{
    let mut out: Vec<String> = Vec::new();
    let mut i: usize = 0;
    while i < d.len()
        invariant
            i <= d@.len(),
            out@ == duplicate_paths(d@.take(i as int)),
        decreases d@.len() - i,
    {
        out.push(d[i].path.clone());
        proof {
            assert(duplicate_paths(d@.take(i + 1)) =~= duplicate_paths(d@.take(i as int)).push(d@[i as int].path));
        }
        i = i + 1;
    }
    proof {
        assert(d@.take(i as int) =~= d@);
    }
    out
}

fn assertion_paths_of(d: &Vec<ArchitectureLongExactProseAssertion>) -> (r: Vec<String>)
    ensures
        r@ == assertion_paths(d@),
{
    let mut out: Vec<String> = Vec::new();
    let mut i: usize = 0;
    while i < d.len()
        invariant
            i <= d@.len(),
            out@ == assertion_paths(d@.take(i as int)),
        decreases d@.len() - i,
    {
        out.push(d[i].path.clone());
        proof {
            assert(assertion_paths(d@.take(i + 1)) =~= assertion_paths(d@.take(i as int)).push(d@[i as int].path));
        }
        i = i + 1;
    }
    proof {
        assert(d@.take(i as int) =~= d@);
    }
    out
}

fn item_paths_of(d: &Vec<ArchitectureTraceabilityItem>, review_surface_only: bool) -> (r: Vec<String>)
    ensures
        r@ == if review_surface_only {
            review_surface_paths(d@)
        } else {
            item_paths(d@)
        },
{
    let mut out: Vec<String> = Vec::new();
    let mut i: usize = 0;
    while i < d.len()
        invariant
            i <= d@.len(),
            out@ == if review_surface_only {
                review_surface_paths(d@.take(i as int))
            } else {
                item_paths(d@.take(i as int))
            },
        decreases d@.len() - i,
    {
        proof {
            assert(d@.take(i + 1).drop_last() =~= d@.take(i as int));
            assert(item_paths(d@.take(i + 1)) =~= item_paths(d@.take(i as int)).push(d@[i as int].path));
        }
        if !review_surface_only || d[i].review_surface {
            out.push(d[i].path.clone());
        }
        i = i + 1;
    }
    proof {
        assert(d@.take(i as int) =~= d@);
    }
    out
}

/// Builds the repository health metrics of an analysis. Counts come from the
/// repository signals and the traceability summary where they are present
/// and are zero where they are not; each by-file list counts the findings of
/// its kind per file. The pattern-cluster, missing-application and
/// prose-outside-docs counts are passed through from the repository signals;
/// the documentation findings are not part of this analysis, so they are
/// zero and their lists empty.
pub fn build_repo_metrics(summary: &ArchitectureAnalysisSummary) -> (r: RepoMetricsSummary)
    requires
        summary.traceability matches Some(t) ==> t.planned_only_items@.len() + t.deprecated_only_items@.len()
            <= usize::MAX,
    ensures
        match summary.repo_signals {
            Some(s) => {
                &&& r.architecture.source_outside_architecture == s.unowned_items
                &&& tallies(r.architecture.source_outside_architecture_by_file@, unowned_paths(s.unowned_item_details@))
                &&& r.patterns.duplicate_source_shapes == s.duplicate_items
                &&& tallies(r.patterns.duplicate_source_shapes_by_file@, duplicate_paths(s.duplicate_item_details@))
                &&& r.patterns.possible_pattern_clusters == s.possible_pattern_clusters
                &&& r.patterns.possible_missing_applications == s.possible_missing_pattern_applications
                &&& tallies(
                    r.patterns.possible_missing_applications_by_file@,
                    s.possible_missing_pattern_application_paths@,
                )
                &&& r.docs.long_prose_outside_docs == s.long_prose_outside_docs
                &&& tallies(r.docs.long_prose_outside_docs_by_file@, s.long_prose_outside_docs_paths@)
                &&& r.tests.exact_long_prose_assertions == s.long_exact_prose_assertions
                &&& tallies(
                    r.tests.exact_long_prose_assertions_by_file@,
                    assertion_paths(s.long_exact_prose_assertion_details@),
                )
            },
            None => {
                &&& r.architecture.source_outside_architecture == 0
                &&& r.architecture.source_outside_architecture_by_file@.len() == 0
                &&& r.patterns.duplicate_source_shapes == 0
                &&& r.patterns.duplicate_source_shapes_by_file@.len() == 0
                &&& r.tests.exact_long_prose_assertions == 0
                &&& r.tests.exact_long_prose_assertions_by_file@.len() == 0
                &&& r.patterns.possible_pattern_clusters == 0
                &&& r.patterns.possible_missing_applications == 0
                &&& r.patterns.possible_missing_applications_by_file@.len() == 0
                &&& r.docs.long_prose_outside_docs == 0
                &&& r.docs.long_prose_outside_docs_by_file@.len() == 0
            },
        },
        r.docs.undocumented_current_specs == 0 && r.docs.undocumented_modules == 0,
        r.docs.undocumented_patterns == 0 && r.docs.internal_only_documented_targets == 0,
        r.docs.undocumented_current_spec_ids@.len() == 0 && r.docs.undocumented_module_ids@.len() == 0,
        r.docs.undocumented_pattern_ids@.len() == 0 && r.docs.internal_only_documented_target_ids@.len() == 0,
        match summary.traceability {
            Some(t) => {
                let m = r.traceability.unwrap();
                &&& r.traceability is Some
                &&& m.analyzed_items == t.analyzed_items
                &&& m.current_spec_items == t.current_spec_items@.len()
                &&& m.statically_mediated_items == t.statically_mediated_items@.len()
                &&& m.unverified_test_items == t.unverified_test_items@.len()
                &&& m.unexplained_items == t.unexplained_items@.len()
                &&& m.unexplained_review_surface_items == count_facet(t.unexplained_items@, UnexplainedFacet::ReviewSurface)
                &&& m.unexplained_public_items == count_facet(t.unexplained_items@, UnexplainedFacet::Public)
                &&& m.unexplained_internal_items == count_facet(t.unexplained_items@, UnexplainedFacet::Internal)
                &&& m.unexplained_module_backed_items == count_facet(t.unexplained_items@, UnexplainedFacet::ModuleBacked)
                &&& m.unexplained_module_connected_items == count_facet(
                    t.unexplained_items@,
                    UnexplainedFacet::ModuleConnected,
                )
                &&& m.unexplained_module_isolated_items == count_facet(
                    t.unexplained_items@,
                    UnexplainedFacet::ModuleIsolated,
                )
                &&& tallies(m.unexplained_items_by_file@, item_paths(t.unexplained_items@))
                &&& tallies(m.unexplained_review_surface_items_by_file@, review_surface_paths(t.unexplained_items@))
                &&& r.specs.untraced_implementation == t.unexplained_items@.len()
                &&& r.specs.test_covered_unlinked_implementation == t.unverified_test_items@.len()
                &&& r.specs.planned_or_deprecated_only_implementation == t.planned_only_items@.len()
                    + t.deprecated_only_items@.len()
                &&& r.specs.statically_mediated_implementation == t.statically_mediated_items@.len()
                &&& tallies(r.specs.untraced_implementation_by_file@, item_paths(t.unexplained_items@))
                &&& tallies(r.specs.untraced_review_surface_by_file@, review_surface_paths(t.unexplained_items@))
            },
            None => {
                &&& r.traceability is None
                &&& r.specs.untraced_implementation == 0
                &&& r.specs.test_covered_unlinked_implementation == 0
                &&& r.specs.planned_or_deprecated_only_implementation == 0
                &&& r.specs.statically_mediated_implementation == 0
                &&& r.specs.untraced_implementation_by_file@.len() == 0
                &&& r.specs.untraced_review_surface_by_file@.len() == 0
            },
        },
{
    let (architecture, patterns, tests, prose, prose_by_file) = match &summary.repo_signals {
        Some(s) => (
            RepoArchitectureHealthMetrics {
                source_outside_architecture: s.unowned_items,
                source_outside_architecture_by_file: grouped_counts(unowned_paths_of(&s.unowned_item_details)),
            },
            RepoPatternHealthMetrics {
                duplicate_source_shapes: s.duplicate_items,
                possible_pattern_clusters: s.possible_pattern_clusters,
                possible_missing_applications: s.possible_missing_pattern_applications,
                duplicate_source_shapes_by_file: grouped_counts(duplicate_paths_of(&s.duplicate_item_details)),
                possible_missing_applications_by_file: grouped_counts(
                    copy_strings(&s.possible_missing_pattern_application_paths),
                ),
            },
            RepoTestHealthMetrics {
                exact_long_prose_assertions: s.long_exact_prose_assertions,
                exact_long_prose_assertions_by_file: grouped_counts(
                    assertion_paths_of(&s.long_exact_prose_assertion_details),
                ),
            },
            s.long_prose_outside_docs,
            grouped_counts(copy_strings(&s.long_prose_outside_docs_paths)),
        ),
        None => (
            RepoArchitectureHealthMetrics {
                source_outside_architecture: 0,
                source_outside_architecture_by_file: Vec::new(),
            },
            RepoPatternHealthMetrics {
                duplicate_source_shapes: 0,
                possible_pattern_clusters: 0,
                possible_missing_applications: 0,
                duplicate_source_shapes_by_file: Vec::new(),
                possible_missing_applications_by_file: Vec::new(),
            },
            RepoTestHealthMetrics { exact_long_prose_assertions: 0, exact_long_prose_assertions_by_file: Vec::new() },
            0,
            Vec::new(),
        ),
    };
    let (specs, traceability) = match &summary.traceability {
        Some(t) => {
            let metrics = RepoTraceabilityMetrics {
                analyzed_items: t.analyzed_items,
                current_spec_items: t.current_spec_items.len(),
                statically_mediated_items: t.statically_mediated_items.len(),
                unverified_test_items: t.unverified_test_items.len(),
                unexplained_items: t.unexplained_items.len(),
                unexplained_review_surface_items: t.unexplained_review_surface_items(),
                unexplained_public_items: t.unexplained_public_items(),
                unexplained_internal_items: t.unexplained_internal_items(),
                unexplained_module_backed_items: t.unexplained_module_backed_items(),
                unexplained_module_connected_items: t.unexplained_module_connected_items(),
                unexplained_module_isolated_items: t.unexplained_module_isolated_items(),
                unexplained_items_by_file: grouped_counts(item_paths_of(&t.unexplained_items, false)),
                unexplained_review_surface_items_by_file: grouped_counts(item_paths_of(&t.unexplained_items, true)),
            };
            let planned = t.planned_only_items.len();
            let deprecated = t.deprecated_only_items.len();
            (
                RepoSpecHealthMetrics {
                    untraced_implementation: t.unexplained_items.len(),
                    test_covered_unlinked_implementation: t.unverified_test_items.len(),
                    planned_or_deprecated_only_implementation: planned + deprecated,
                    statically_mediated_implementation: t.statically_mediated_items.len(),
                    untraced_implementation_by_file: grouped_counts(item_paths_of(&t.unexplained_items, false)),
                    untraced_review_surface_by_file: grouped_counts(item_paths_of(&t.unexplained_items, true)),
                },
                Some(metrics),
            )
        },
        None => (
            RepoSpecHealthMetrics {
                untraced_implementation: 0,
                test_covered_unlinked_implementation: 0,
                planned_or_deprecated_only_implementation: 0,
                statically_mediated_implementation: 0,
                untraced_implementation_by_file: Vec::new(),
                untraced_review_surface_by_file: Vec::new(),
            },
            None,
        ),
    };
    let docs = RepoDocsHealthMetrics {
        long_prose_outside_docs: prose,
        undocumented_current_specs: 0,
        undocumented_modules: 0,
        undocumented_patterns: 0,
        internal_only_documented_targets: 0,
        long_prose_outside_docs_by_file: prose_by_file,
        undocumented_current_spec_ids: Vec::new(),
        undocumented_module_ids: Vec::new(),
        undocumented_pattern_ids: Vec::new(),
        internal_only_documented_target_ids: Vec::new(),
    };
    RepoMetricsSummary { specs, architecture, patterns, docs, tests, traceability }
}

} // verus!
