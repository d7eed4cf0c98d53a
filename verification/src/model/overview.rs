//! Rendered documents, repository metrics, grouped counts, and lint reports.
use vstd::prelude::*;

use super::analysis::ArchitectureAnalysisSummary;
use super::core_types::DiagnosticSeverity;
use super::spec::{Diagnostic, SpecNode};
use crate::order::{KeyOrder, char_key, compare_text_keys, lemma_lex_asymmetric, lemma_lex_transitive, lex_lt, text_key};

verus! {

/// The rendered spec tree.
#[derive(Debug)]
pub struct SpecDocument {
    pub nodes: Vec<SpecNode>,
    pub metrics: Option<SpecMetricsSummary>,
}

/// The rendered repository health report.
#[derive(Debug, Clone)]
pub struct RepoDocument {
    pub metrics: Option<RepoMetricsSummary>,
    pub analysis: Option<ArchitectureAnalysisSummary>,
}

/// Totals over the module tree.
#[derive(Debug, Clone)]
pub struct ArchitectureMetricsSummary {
    pub total_modules: usize,
    pub total_areas: usize,
    pub unimplemented_modules: usize,
    pub file_scoped_implements: usize,
    pub item_scoped_implements: usize,
    pub owned_lines: usize,
    pub public_items: usize,
    pub internal_items: usize,
    pub complexity_functions: usize,
    pub total_cyclomatic: usize,
    pub max_cyclomatic: usize,
    pub total_cognitive: usize,
    pub max_cognitive: usize,
    pub quality_public_functions: usize,
    pub quality_parameters: usize,
    pub quality_bool_params: usize,
    pub quality_raw_string_params: usize,
    pub quality_panic_sites: usize,
    pub unreached_items: usize,
    pub modules_by_area: Vec<GroupedCount>,
    pub owned_lines_by_module: Vec<GroupedCount>,
    pub max_cyclomatic_by_module: Vec<GroupedCount>,
    pub max_cognitive_by_module: Vec<GroupedCount>,
    pub panic_sites_by_module: Vec<GroupedCount>,
    pub unreached_items_by_module: Vec<GroupedCount>,
    pub fan_in_by_module: Vec<GroupedCount>,
    pub fan_out_by_module: Vec<GroupedCount>,
    pub ambiguous_internal_targets_by_module: Vec<GroupedCount>,
    pub unresolved_internal_targets_by_module: Vec<GroupedCount>,
    pub external_dependency_targets_by_module: Vec<GroupedCount>,
}

/// Totals over the spec tree.
#[derive(Debug, Clone)]
pub struct SpecMetricsSummary {
    pub total_specs: usize,
    pub planned_specs: usize,
    pub deprecated_specs: usize,
    pub unverified_specs: usize,
    pub verified_specs: usize,
    pub attested_specs: usize,
    pub specs_with_both_supports: usize,
    pub verifies: usize,
    pub item_scoped_verifies: usize,
    pub file_scoped_verifies: usize,
    pub unattached_verifies: usize,
    pub attests: usize,
    pub block_attests: usize,
    pub file_attests: usize,
    pub specs_by_file: Vec<GroupedCount>,
    pub current_specs_by_top_level_id: Vec<GroupedCount>,
}

/// Repository health, by area.
#[derive(Debug, Clone)]
pub struct RepoMetricsSummary {
    pub specs: RepoSpecHealthMetrics,
    pub architecture: RepoArchitectureHealthMetrics,
    pub patterns: RepoPatternHealthMetrics,
    pub docs: RepoDocsHealthMetrics,
    pub tests: RepoTestHealthMetrics,
    pub traceability: Option<RepoTraceabilityMetrics>,
}

#[derive(Debug, Clone)]
pub struct RepoSpecHealthMetrics {
    pub untraced_implementation: usize,
    pub test_covered_unlinked_implementation: usize,
    pub planned_or_deprecated_only_implementation: usize,
    pub statically_mediated_implementation: usize,
    pub untraced_implementation_by_file: Vec<GroupedCount>,
    pub untraced_review_surface_by_file: Vec<GroupedCount>,
}

#[derive(Debug, Clone)]
pub struct RepoArchitectureHealthMetrics {
    pub source_outside_architecture: usize,
    pub source_outside_architecture_by_file: Vec<GroupedCount>,
}

#[derive(Debug, Clone)]
pub struct RepoPatternHealthMetrics {
    pub duplicate_source_shapes: usize,
    pub possible_pattern_clusters: usize,
    pub possible_missing_applications: usize,
    pub duplicate_source_shapes_by_file: Vec<GroupedCount>,
    pub possible_missing_applications_by_file: Vec<GroupedCount>,
}

#[derive(Debug, Clone)]
pub struct RepoDocsHealthMetrics {
    pub long_prose_outside_docs: usize,
    pub undocumented_current_specs: usize,
    pub undocumented_modules: usize,
    pub undocumented_patterns: usize,
    pub internal_only_documented_targets: usize,
    pub long_prose_outside_docs_by_file: Vec<GroupedCount>,
    pub undocumented_current_spec_ids: Vec<String>,
    pub undocumented_module_ids: Vec<String>,
    pub undocumented_pattern_ids: Vec<String>,
    pub internal_only_documented_target_ids: Vec<String>,
}

#[derive(Debug, Clone)]
pub struct RepoTestHealthMetrics {
    pub exact_long_prose_assertions: usize,
    pub exact_long_prose_assertions_by_file: Vec<GroupedCount>,
}

#[derive(Debug, Clone)]
pub struct RepoTraceabilityMetrics {
    pub analyzed_items: usize,
    pub current_spec_items: usize,
    pub statically_mediated_items: usize,
    pub unverified_test_items: usize,
    pub unexplained_items: usize,
    pub unexplained_review_surface_items: usize,
    pub unexplained_public_items: usize,
    pub unexplained_internal_items: usize,
    pub unexplained_module_backed_items: usize,
    pub unexplained_module_connected_items: usize,
    pub unexplained_module_isolated_items: usize,
    pub unexplained_items_by_file: Vec<GroupedCount>,
    pub unexplained_review_surface_items_by_file: Vec<GroupedCount>,
}

/// A value and how often it occurs.
#[derive(Debug, Clone)]
pub struct GroupedCount {
    pub value: String,
    pub count: usize,
}

/// Strict code point order on texts.
pub open spec fn value_lt(a: Seq<char>, b: Seq<char>) -> bool {
    lex_lt(text_key(a, false), text_key(b, false))
}

/// The groups are in strictly ascending order of their values, so no value
/// occurs twice.
pub open spec fn groups_ascending(g: Seq<GroupedCount>) -> bool {
    forall|i: int, j: int| 0 <= i < j < g.len() ==> value_lt((#[trigger] g[i]).value@, (#[trigger] g[j]).value@)
}

/// Some group holds the value `v`.
pub open spec fn group_holds(groups: Seq<GroupedCount>, v: Seq<char>) -> bool {
    exists|k: int| 0 <= k < groups.len() && (#[trigger] groups[k]).value@ == v
}

/// How often `v` occurs in `values`.
pub open spec fn occurrences(values: Seq<String>, v: Seq<char>) -> nat
    decreases values.len(),
{
    if values.len() == 0 {
        0
    } else {
        occurrences(values.drop_last(), v) + if values.last()@ == v {
            1nat
        } else {
            0nat
        }
    }
}

/// The value that the last entry with key `k` gives, if any entry has it.
pub open spec fn last_entry(entries: Seq<(String, usize)>, k: Seq<char>) -> Option<usize>
    decreases entries.len(),
{
    if entries.len() == 0 {
        None
    } else if entries.last().0@ == k {
        Some(entries.last().1)
    } else {
        last_entry(entries.drop_last(), k)
    }
}

proof fn lemma_text_key_injective(a: Seq<char>, b: Seq<char>)
    requires
        text_key(a, false) == text_key(b, false),
    ensures
        a == b,
{
    assert(a.len() == text_key(a, false).len());
    assert(b.len() == text_key(b, false).len());
    assert forall|i: int| 0 <= i < a.len() implies a[i] == b[i] by {
        assert(text_key(a, false)[i] == text_key(b, false)[i]);
        assert(text_key(a, false)[i] == char_key(a[i], false));
        assert(text_key(b, false)[i] == char_key(b[i], false));
        assert(char_key(a[i], false) == char_key(b[i], false));
    }
    assert(a =~= b);
}

/// Finds where `value` stands among ascending groups: the position of the
/// group that holds it, or where a new group for it belongs.
pub fn locate_group(groups: &Vec<GroupedCount>, value: &str) -> (r: (usize, bool))
    requires
        groups_ascending(groups@),
    ensures
        r.0 <= groups@.len(),
        forall|k: int| 0 <= k < r.0 ==> value_lt((#[trigger] groups@[k]).value@, value@),
        r.1 ==> r.0 < groups@.len() && groups@[r.0 as int].value@ == value@,
        !r.1 ==> r.0 == groups@.len() || value_lt(value@, groups@[r.0 as int].value@),
{
    let mut pos: usize = 0;
    while pos < groups.len()
        invariant
            pos <= groups@.len(),
            forall|k: int| 0 <= k < pos ==> value_lt((#[trigger] groups@[k]).value@, value@),
        decreases groups@.len() - pos,
    {
        match compare_text_keys(groups[pos].value.as_str(), value, false) {
            KeyOrder::Before => {},
            KeyOrder::Same => {
                proof {
                    lemma_text_key_injective(groups@[pos as int].value@, value@);
                }
                return (pos, true);
            },
            KeyOrder::After => {
                return (pos, false);
            },
        }
        pos = pos + 1;
    }
    (pos, false)
}

/// Inserting a group between its neighbours keeps the groups ascending.
pub proof fn lemma_insert_keeps_ascending(g: Seq<GroupedCount>, pos: int, x: GroupedCount)
    requires
        groups_ascending(g),
        0 <= pos <= g.len(),
        forall|k: int| 0 <= k < pos ==> value_lt((#[trigger] g[k]).value@, x.value@),
        pos == g.len() || value_lt(x.value@, g[pos].value@),
    ensures
        groups_ascending(g.insert(pos, x)),
{
    let n = g.insert(pos, x);
    assert forall|i: int, j: int| 0 <= i < j < n.len() implies value_lt((#[trigger] n[i]).value@, (#[trigger] n[j]).value@) by {
        if j < pos {
        } else if j == pos {
            assert(n[i] == g[i]);
        } else if i == pos {
            assert(n[j] == g[j - 1]);
            if j - 1 > pos {
                assert(value_lt(g[pos].value@, g[j - 1].value@));
                lemma_lex_transitive(text_key(x.value@, false), text_key(g[pos].value@, false), text_key(g[j - 1].value@, false));
            }
        } else if i > pos {
            assert(n[i] == g[i - 1] && n[j] == g[j - 1]);
        } else {
            assert(n[i] == g[i] && n[j] == g[j - 1]);
            assert(value_lt(g[i].value@, x.value@));
            assert(value_lt(x.value@, g[pos].value@));
            lemma_lex_transitive(text_key(g[i].value@, false), text_key(x.value@, false), text_key(g[pos].value@, false));
            if j - 1 > pos {
                lemma_lex_transitive(text_key(g[i].value@, false), text_key(g[pos].value@, false), text_key(g[j - 1].value@, false));
            }
        }
    }
}

/// Counts each distinct value: one group per value, in ascending order.
pub fn grouped_counts(values: Vec<String>) -> (r: Vec<GroupedCount>)
    ensures
        groups_ascending(r@),
        forall|k: int| 0 <= k < r@.len() ==> (#[trigger] r@[k]).count == occurrences(values@, r@[k].value@)
            && r@[k].count > 0,
        forall|j: int| 0 <= j < values@.len() ==> #[trigger] group_holds(r@, values@[j]@),
{
    let mut out: Vec<GroupedCount> = Vec::new();
    let mut i: usize = 0;
    while i < values.len()
        invariant
            i <= values@.len(),
            groups_ascending(out@),
            forall|k: int| 0 <= k < out@.len() ==> (#[trigger] out@[k]).count == occurrences(values@.take(i as int), out@[k].value@)
                && out@[k].count > 0 && out@[k].count <= i,
            forall|j: int| 0 <= j < i ==> #[trigger] group_holds(out@, values@[j]@),
        decreases values@.len() - i,
    {
        let ghost prefix = values@.take(i as int);
        let ghost next = values@.take(i as int + 1);
        proof {
            assert(next.drop_last() =~= prefix);
            assert(next.last() == values@[i as int]);
        }
        let value = &values[i];
        let (pos, found) = locate_group(&out, value.as_str());
        let ghost before = out@;
        if found {
            let c = out[pos].count;
            let g = GroupedCount { value: out[pos].value.clone(), count: c + 1 };
            out.set(pos, g);
            proof {
                assert forall|k: int| 0 <= k < out@.len() implies (#[trigger] out@[k]).count == occurrences(next, out@[k].value@)
                    && out@[k].count > 0 && out@[k].count <= i + 1 by {
                    if k != pos {
                        assert(out@[k] == before[k]);
                        if before[k].value@ == value@ {
                            lemma_lex_asymmetric(text_key(before[k].value@, false), text_key(before[pos as int].value@, false));
                            crate::order::lemma_lex_irreflexive(text_key(value@, false));
                        }
                    }
                }
                assert forall|j: int| 0 <= j < i + 1 implies #[trigger] group_holds(out@, values@[j]@) by {
                    if j == i {
                        assert(out@[pos as int].value@ == values@[j]@);
                    } else {
                        assert(group_holds(before, values@[j]@));
                        let k = choose|k: int| 0 <= k < before.len() && (#[trigger] before[k]).value@ == values@[j]@;
                        assert(out@[k].value@ == before[k].value@);
                    }
                }
                assert forall|a: int, b: int| 0 <= a < b < out@.len() implies value_lt((#[trigger] out@[a]).value@, (#[trigger] out@[b]).value@) by {
                    assert(out@[a].value@ == before[a].value@);
                    assert(out@[b].value@ == before[b].value@);
                }
            }
        } else {
            let g = GroupedCount { value: value.clone(), count: 1 };
            out.insert(pos, g);
            proof {
                lemma_insert_keeps_ascending(before, pos as int, g);
                assert forall|k: int| 0 <= k < out@.len() implies (#[trigger] out@[k]).count == occurrences(next, out@[k].value@)
                    && out@[k].count > 0 && out@[k].count <= i + 1 by {
                    if k < pos {
                        assert(out@[k] == before[k]);
                        crate::order::lemma_lex_irreflexive(text_key(value@, false));
                    } else if k > pos {
                        assert(out@[k] == before[k - 1]);
                        crate::order::lemma_lex_irreflexive(text_key(value@, false));
                        assert(value_lt(value@, before[pos as int].value@));
                        if k - 1 > pos {
                            assert(value_lt(before[pos as int].value@, before[k - 1].value@));
                            lemma_lex_transitive(text_key(value@, false), text_key(before[pos as int].value@, false), text_key(before[k - 1].value@, false));
                        }
                    } else {
                        assert(out@[k] == g);
                        assert forall|m: int| 0 <= m < before.len() implies (#[trigger] before[m]).value@ != value@ by {
                            crate::order::lemma_lex_irreflexive(text_key(value@, false));
                            if m > pos {
                                assert(value_lt(before[pos as int].value@, before[m].value@));
                                lemma_lex_transitive(text_key(value@, false), text_key(before[pos as int].value@, false), text_key(before[m].value@, false));
                            }
                        }
                        lemma_occurrences_absent(prefix, value@, before);
                    }
                }
                assert forall|j: int| 0 <= j < i + 1 implies #[trigger] group_holds(out@, values@[j]@) by {
                    if j == i {
                        assert(out@[pos as int].value@ == values@[j]@);
                    } else {
                        assert(group_holds(before, values@[j]@));
                        let k = choose|k: int| 0 <= k < before.len() && (#[trigger] before[k]).value@ == values@[j]@;
                        if k < pos {
                            assert(out@[k] == before[k]);
                        } else {
                            assert(out@[k + 1] == before[k]);
                        }
                    }
                }
            }
        }
        i = i + 1;
    }
    proof {
        assert(values@.take(i as int) =~= values@);
    }
    out
}

/// A value that no group holds does not occur in the counted prefix.
proof fn lemma_occurrences_absent(prefix: Seq<String>, v: Seq<char>, groups: Seq<GroupedCount>)
    requires
        forall|j: int| 0 <= j < prefix.len() ==> #[trigger] group_holds(groups, prefix[j]@),
        forall|k: int| 0 <= k < groups.len() ==> (#[trigger] groups[k]).value@ != v,
    ensures
        occurrences(prefix, v) == 0,
    decreases prefix.len(),
{
    if prefix.len() > 0 {
        let last = prefix.len() - 1;
        assert(prefix[last] == prefix.last());
        assert(group_holds(groups, prefix[last]@));
        let k = choose|k: int| 0 <= k < groups.len() && (#[trigger] groups[k]).value@ == prefix[last]@;
        assert forall|j: int| 0 <= j < prefix.drop_last().len() implies #[trigger] group_holds(groups, prefix.drop_last()[j]@) by {
            assert(prefix.drop_last()[j] == prefix[j]);
            assert(group_holds(groups, prefix[j]@));
        }
        lemma_occurrences_absent(prefix.drop_last(), v, groups);
    }
}

/// The groups of a map given as entries: one group per key in ascending
/// order, with the value of the last entry for that key.
pub fn grouped_count_map(counts: Vec<(String, usize)>) -> (r: Vec<GroupedCount>)
    ensures
        groups_ascending(r@),
        forall|k: int| 0 <= k < r@.len() ==> last_entry(counts@, (#[trigger] r@[k]).value@) == Some(r@[k].count),
        forall|j: int| 0 <= j < counts@.len() ==> #[trigger] group_holds(r@, counts@[j].0@),
{
    let mut out: Vec<GroupedCount> = Vec::new();
    let mut i: usize = 0;
    while i < counts.len()
        invariant
            i <= counts@.len(),
            groups_ascending(out@),
            forall|k: int| 0 <= k < out@.len() ==> last_entry(counts@.take(i as int), (#[trigger] out@[k]).value@)
                == Some(out@[k].count),
            forall|j: int| 0 <= j < i ==> #[trigger] group_holds(out@, counts@[j].0@),
        decreases counts@.len() - i,
    {
        let ghost prefix = counts@.take(i as int);
        let ghost next = counts@.take(i as int + 1);
        proof {
            assert(next.drop_last() =~= prefix);
            assert(next.last() == counts@[i as int]);
        }
        let key = &counts[i].0;
        let value = counts[i].1;
        let (pos, found) = locate_group(&out, key.as_str());
        let ghost before = out@;
        if found {
            let g = GroupedCount { value: out[pos].value.clone(), count: value };
            out.set(pos, g);
            proof {
                assert forall|k: int| 0 <= k < out@.len() implies last_entry(next, (#[trigger] out@[k]).value@)
                    == Some(out@[k].count) by {
                    if k != pos {
                        assert(out@[k] == before[k]);
                        if before[k].value@ == key@ {
                            lemma_lex_asymmetric(text_key(before[k].value@, false), text_key(before[pos as int].value@, false));
                            crate::order::lemma_lex_irreflexive(text_key(key@, false));
                        }
                    }
                }
                assert forall|j: int| 0 <= j < i + 1 implies #[trigger] group_holds(out@, counts@[j].0@) by {
                    if j == i {
                        assert(out@[pos as int].value@ == counts@[j].0@);
                    } else {
                        assert(group_holds(before, counts@[j].0@));
                        let k = choose|k: int| 0 <= k < before.len() && (#[trigger] before[k]).value@ == counts@[j].0@;
                        assert(out@[k].value@ == before[k].value@);
                    }
                }
                assert forall|a: int, b: int| 0 <= a < b < out@.len() implies value_lt((#[trigger] out@[a]).value@, (#[trigger] out@[b]).value@) by {
                    assert(out@[a].value@ == before[a].value@);
                    assert(out@[b].value@ == before[b].value@);
                }
            }
        } else {
            let g = GroupedCount { value: key.clone(), count: value };
            out.insert(pos, g);
            proof {
                lemma_insert_keeps_ascending(before, pos as int, g);
                assert forall|k: int| 0 <= k < out@.len() implies last_entry(next, (#[trigger] out@[k]).value@)
                    == Some(out@[k].count) by {
                    if k < pos {
                        assert(out@[k] == before[k]);
                        crate::order::lemma_lex_irreflexive(text_key(key@, false));
                    } else if k > pos {
                        assert(out@[k] == before[k - 1]);
                        crate::order::lemma_lex_irreflexive(text_key(key@, false));
                        assert(value_lt(key@, before[pos as int].value@));
                        if k - 1 > pos {
                            assert(value_lt(before[pos as int].value@, before[k - 1].value@));
                            lemma_lex_transitive(text_key(key@, false), text_key(before[pos as int].value@, false), text_key(before[k - 1].value@, false));
                        }
                    } else {
                        assert(out@[k] == g);
                    }
                }
                assert forall|j: int| 0 <= j < i + 1 implies #[trigger] group_holds(out@, counts@[j].0@) by {
                    if j == i {
                        assert(out@[pos as int].value@ == counts@[j].0@);
                    } else {
                        assert(group_holds(before, counts@[j].0@));
                        let k = choose|k: int| 0 <= k < before.len() && (#[trigger] before[k]).value@ == counts@[j].0@;
                        if k < pos {
                            assert(out@[k] == before[k]);
                        } else {
                            assert(out@[k + 1] == before[k]);
                        }
                    }
                }
            }
        }
        i = i + 1;
    }
    proof {
        assert(counts@.take(i as int) =~= counts@);
    }
    out
}

/// The diagnostics of a lint run.
#[derive(Debug, Clone)]
pub struct LintReport {
    pub diagnostics: Vec<Diagnostic>,
}

impl LintReport {
    /// Whether any diagnostic is an error.
    pub fn has_errors(&self) -> (r: bool)
        ensures
            r == exists|i: int| 0 <= i < self.diagnostics@.len() && (#[trigger] self.diagnostics@[i]).severity
                == DiagnosticSeverity::Error,
    {
        let mut i: usize = 0;
        while i < self.diagnostics.len()
            invariant
                i <= self.diagnostics@.len(),
                forall|k: int| 0 <= k < i ==> (#[trigger] self.diagnostics@[k]).severity != DiagnosticSeverity::Error,
            decreases self.diagnostics@.len() - i,
        {
            match self.diagnostics[i].severity {
                DiagnosticSeverity::Error => {
                    return true;
                },
                _ => {},
            }
            i = i + 1;
        }
        false
    }
}

} // verus!
